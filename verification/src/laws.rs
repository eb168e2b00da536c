//! What encoding, decoding and repair have to do with each other.

use vstd::prelude::*;
use crate::codeword::is_clay_codeword;
use crate::decode::{
    available_agree,
    decode_post,
    indices_ok,
    joined,
    sizes_ok,
};
use crate::encode::{
    chunk_size_for,
    encodable,
    encode_post,
    internal_chunks,
    lemma_padding,
    min_bytes,
    padded,
    padded_len,
    sub_chunk_size_for,
    units,
    EncodeParams,
};
use crate::decode::{erased_count, erased_upto, lemma_erased_insert};
use crate::error::ClayError;
use crate::layout::{cell, row_cell};
use crate::planes::lemma_node_geometry;
use crate::repair::{
    chosen_helpers,
    fill_helpers,
    helper_nodes,
    is_sibling_helper,
    lemma_fill_keeps,
    lemma_siblings_count,
    lemma_siblings_listed,
    plan_post,
    sibling_helpers,
    aloof_set,
    base_set,
    helper_data_agree,
    helpers_ok,
    is_aloof,
    is_missing_sibling,
    lemma_repair_layers,
    repair_input_ok,
    repair_layer,
    repair_post,
    sibling,
    to_external,
};

verus! {

/// The node indices below `n`.
pub open spec fn below(n: nat) -> Set<usize> {
    Set::new(|i: usize| i < n)
}

/// There are `n` node indices below `n`.
pub proof fn lemma_below(n: nat)
    requires
        n <= usize::MAX,
    ensures
        below(n).finite(),
        below(n).len() == n,
    decreases n,
{
    if n == 0 {
        assert(below(n) =~= Set::<usize>::empty());
    } else {
        lemma_below((n - 1) as nat);
        assert(below(n) =~= below((n - 1) as nat).insert((n - 1) as usize));
    }
}

/// Whether `available` holds the chunks of `chunks` that `erasures` does
/// not list, each under its index, and `erasures` lists chunks, each once.
pub open spec fn is_rest_of(
    p: EncodeParams,
    chunks: Seq<Vec<u8>>,
    erasures: Seq<usize>,
    available: Map<usize, Vec<u8>>,
) -> bool {
    &&& erasures.no_duplicates()
    &&& forall|j: int| 0 <= j < erasures.len() ==> #[trigger] erasures[j] < p.n
    &&& forall|i: usize|
        #[trigger] available.contains_key(i) <==> i < p.n && !erasures.contains(i)
    &&& forall|i: usize| available.contains_key(i) ==> (#[trigger] available[i])@ == chunks[i as int]@
}

/// Chunks that are consecutive pieces of one size of a row of bytes, joined,
/// are that row.
pub proof fn lemma_joined_pieces(b: Seq<Seq<u8>>, whole: Seq<u8>, upto: nat, len: nat)
    requires
        upto <= b.len(),
        upto * len <= whole.len(),
        forall|i: int|
            0 <= i < upto ==> #[trigger] b[i] == whole.subrange(i * len, i * len + len),
    ensures
        joined(b, upto) == whole.subrange(0, (upto * len) as int),
    decreases upto,
{
    if upto == 0 {
        assert(upto * len == 0) by (nonlinear_arith)
            requires
                upto == 0,
        ;
        assert(joined(b, upto) =~= whole.subrange(0, 0));
    } else {
        let prev = (upto - 1) as nat;
        assert(prev * len + len == upto * len) by (nonlinear_arith)
            requires
                prev + 1 == upto,
        ;
        assert(0 <= prev * len) by (nonlinear_arith);
        lemma_joined_pieces(b, whole, prev, len);
        assert(b[prev as int] == whole.subrange((prev * len) as int, (prev * len + len) as int));
        assert(joined(b, upto) =~= whole.subrange(0, (upto * len) as int));
    }
}

/// The available chunks that encoding and at most `m` erasures leave are
/// what `decode` asks for.
pub proof fn lemma_rest_is_valid(
    p: EncodeParams,
    data: Seq<u8>,
    chunks: Seq<Vec<u8>>,
    erasures: Seq<usize>,
    available: Map<usize, Vec<u8>>,
)
    requires
        p.wf(),
        encode_post(p, data, chunks),
        is_rest_of(p, chunks, erasures, available),
        erasures.len() <= p.m,
    ensures
        !available.dom().is_empty(),
        sizes_ok(p, available, chunk_size_for(p, data.len())),
        indices_ok(p, available, erasures),
        available_agree(
            p,
            available,
            internal_chunks(p, chunks, chunk_size_for(p, data.len())),
        ),
{
    p.lemma_wf();
    lemma_padding(p, data.len());
    let cs = chunk_size_for(p, data.len());
    let es = erasures.to_set();
    lemma_below(p.n as nat);
    erasures.unique_seq_to_set();
    vstd::seq_lib::seq_to_set_is_finite(erasures);
    assert(available.dom() =~= below(p.n as nat).difference(es));
    assert(below(p.n as nat).intersect(es) =~= es) by {
        assert forall|i: usize| es.contains(i) implies below(p.n as nat).contains(i) by {
            let j = choose|j: int| 0 <= j < erasures.len() && erasures[j] == i;
            assert(erasures[j] < p.n);
        }
    }
    vstd::set_lib::lemma_set_difference_len(below(p.n as nat), es);
    assert(available.dom().len() == p.n - erasures.len());
    assert(available.dom().len() > 0);
    if available.dom().is_empty() {
        assert(available.dom() =~= Set::<usize>::empty());
    }
    assert(cs > 0 && cs % (p.sub_chunk_no as nat) == 0) by {
        let s2 = sub_chunk_size_for(p, data.len());
        assert(cs == p.sub_chunk_no * s2);
        assert(cs >= 2) by (nonlinear_arith)
            requires
                cs == p.sub_chunk_no * s2,
                p.sub_chunk_no >= 2,
                s2 >= 2,
        ;
        assert(p.sub_chunk_no * s2 == s2 * p.sub_chunk_no) by (nonlinear_arith);
        vstd::arithmetic::div_mod::lemma_mod_multiples_basic(s2 as int, p.sub_chunk_no as int);
    }
    assert forall|i: usize| available.contains_key(i) implies (#[trigger] available[i])@.len()
        == cs by {
        assert(chunks[i as int]@.len() == cs);
    }
    assert forall|j: int| 0 <= j < erasures.len() implies !available.contains_key(
        #[trigger] erasures[j],
    ) by {
        assert(erasures.contains(erasures[j]));
    }
}

/// Decoding undoes encoding: from the chunks of encoded data, less any
/// erasures that the code can bear, `decode` gives the data back, followed
/// by the zeros of the padding.
pub proof fn lemma_decode_inverts_encode(
    p: EncodeParams,
    data: Seq<u8>,
    chunks: Seq<Vec<u8>>,
    erasures: Seq<usize>,
    available: Map<usize, Vec<u8>>,
    r: Result<Vec<u8>, ClayError>,
)
    requires
        p.wf(),
        encodable(p, data.len()),
        encode_post(p, data, chunks),
        is_rest_of(p, chunks, erasures, available),
        erasures.len() <= p.m,
        decode_post(p, available, erasures, r),
    ensures
        r is Ok,
        r->Ok_0@ == padded(data, padded_len(p, data.len())),
        r->Ok_0@.subrange(0, data.len() as int) == data,
{
    p.lemma_wf();
    lemma_padding(p, data.len());
    lemma_rest_is_valid(p, data, chunks, erasures, available);
    let cs = chunk_size_for(p, data.len());
    let size = sub_chunk_size_for(p, data.len());
    let word = internal_chunks(p, chunks, cs);
    assert(sizes_ok(p, available, cs));
    assert(is_clay_codeword(p, size, word));
    assert(r->Ok_0@ == joined(word, p.k as nat));
    let whole = padded(data, padded_len(p, data.len()));
    assert forall|i: int| 0 <= i < p.k implies #[trigger] word[i] == whole.subrange(
        i * cs,
        i * cs + cs,
    ) by {
        assert(word[i] == chunks[i]@);
    }
    lemma_joined_pieces(word, whole, p.k as nat, cs);
    assert(whole.subrange(0, (p.k * cs) as int) =~= whole);
    assert(whole.subrange(0, data.len() as int) =~= data);
}

/// Without erasures in particular: decoding all chunks of encoded data
/// gives the data back.
pub proof fn lemma_decode_of_all_chunks(
    p: EncodeParams,
    data: Seq<u8>,
    chunks: Seq<Vec<u8>>,
    available: Map<usize, Vec<u8>>,
    r: Result<Vec<u8>, ClayError>,
)
    requires
        p.wf(),
        encodable(p, data.len()),
        encode_post(p, data, chunks),
        is_rest_of(p, chunks, Seq::<usize>::empty(), available),
        decode_post(p, available, Seq::<usize>::empty(), r),
    ensures
        r is Ok,
        r->Ok_0@.len() == p.k * chunk_size_for(p, data.len()),
        r->Ok_0@.subrange(0, data.len() as int) == data,
{
    lemma_padding(p, data.len());
    lemma_decode_inverts_encode(p, data, chunks, Seq::<usize>::empty(), available, r);
}

/// Encoding again what was decoded gives the chunks again: where `decode`
/// was given chunks of encoded data and its result is encoded, the chunks
/// that come out are the ones that went in, bit for bit.
pub proof fn lemma_encode_again(
    p: EncodeParams,
    data: Seq<u8>,
    chunks: Seq<Vec<u8>>,
    erasures: Seq<usize>,
    available: Map<usize, Vec<u8>>,
    r: Result<Vec<u8>, ClayError>,
    chunks_again: Seq<Vec<u8>>,
)
    requires
        p.wf(),
        encodable(p, data.len()),
        encode_post(p, data, chunks),
        is_rest_of(p, chunks, erasures, available),
        erasures.len() <= p.m,
        decode_post(p, available, erasures, r),
        r is Ok ==> encode_post(p, r->Ok_0@, chunks_again),
    ensures
        r is Ok,
        chunks_again.len() == chunks.len(),
        forall|i: int| 0 <= i < p.n ==> (#[trigger] chunks_again[i])@ == chunks[i]@,
{
    p.lemma_wf();
    lemma_padding(p, data.len());
    lemma_decode_inverts_encode(p, data, chunks, erasures, available, r);
    let len = data.len();
    let whole = r->Ok_0@;
    let len2 = whole.len();
    assert(len2 == padded_len(p, len));
    // the padded data needs no more padding
    lemma_padded_again(p, len);
    lemma_padding(p, len2);
    let cs = chunk_size_for(p, len);
    let size = sub_chunk_size_for(p, len);
    assert(chunk_size_for(p, len2) == cs);
    assert(padded(whole, padded_len(p, len2)) =~= whole);
    let word = internal_chunks(p, chunks, cs);
    let word2 = internal_chunks(p, chunks_again, cs);
    assert forall|i: int| 0 <= i < p.k implies word[i] == (#[trigger] chunks_again[i])@ by {
        assert(word[i] == chunks[i]@);
    }
    assert(word2 == word);
    assert forall|i: int| 0 <= i < p.n implies (#[trigger] chunks_again[i])@ == chunks[i]@ by {
        if i < p.k {
            assert(word2[i] == word[i]);
        } else {
            assert(word2[i + p.nu] == word[i + p.nu]);
        }
    }
}

/// Data that is padded already is encoded in chunks of the same size.
pub proof fn lemma_padded_again(p: EncodeParams, len: nat)
    requires
        p.wf(),
    ensures
        units(p, padded_len(p, len)) == units(p, len),
        padded_len(p, padded_len(p, len)) == padded_len(p, len),
{
    lemma_padding(p, len);
    let min = min_bytes(p) as int;
    let u = units(p, len) as int;
    let len2 = padded_len(p, len) as int;
    assert(len2 == u * min);
    assert(len2 >= 1) by (nonlinear_arith)
        requires
            len2 == u * min,
            u >= 1,
            min >= 1,
    ;
    assert(len2 + min - 1 == min * u + (min - 1)) by (nonlinear_arith)
        requires
            len2 == u * min,
    ;
    vstd::arithmetic::div_mod::lemma_fundamental_div_mod_converse(len2 + min - 1, min, u, min - 1);
}

/// Empty input is encoded in chunks of two bytes per sub-chunk.
pub proof fn lemma_encode_of_nothing(p: EncodeParams, chunks: Seq<Vec<u8>>)
    requires
        p.wf(),
        encode_post(p, Seq::<u8>::empty(), chunks),
    ensures
        chunks.len() == p.n,
        forall|i: int| 0 <= i < p.n ==> (#[trigger] chunks[i])@.len() == p.sub_chunk_no * 2,
{
    lemma_padding(p, 0);
}

/// The number of nodes of a finite set of nodes below `n` is the number
/// that counting them one by one gives.
pub proof fn lemma_count_is_len(e: Set<usize>, n: nat)
    requires
        e.finite(),
        n <= usize::MAX,
        forall|x: usize| e.contains(x) ==> x < n,
    ensures
        erased_upto(e, n) == e.len(),
    decreases n,
{
    if n == 0 {
        assert(e =~= Set::<usize>::empty());
    } else {
        let x = (n - 1) as usize;
        let rest = e.remove(x);
        lemma_count_is_len(rest, (n - 1) as nat);
        lemma_erased_insert(rest, x, (n - 1) as nat);
        if e.contains(x) {
            assert(rest.insert(x) =~= e);
        } else {
            assert(rest =~= e);
        }
    }
}

/// Counting the nodes of a set of nodes one by one reads only the nodes
/// that are counted.
pub proof fn lemma_count_same(a: Set<usize>, b: Set<usize>, upto: nat)
    requires
        upto <= usize::MAX,
        forall|x: usize| x < upto ==> (a.contains(x) <==> b.contains(x)),
    ensures
        erased_upto(a, upto) == erased_upto(b, upto),
    decreases upto,
{
    if upto > 0 {
        lemma_count_same(a, b, (upto - 1) as nat);
    }
}

/// The nodes from `lo` up to `hi`.
pub open spec fn span(lo: nat, hi: nat) -> Set<usize> {
    Set::new(|i: usize| lo <= i < hi)
}

/// Of the nodes from `lo` up to `hi`, those below `upto` are counted.
pub proof fn lemma_count_span(lo: nat, hi: nat, upto: nat)
    requires
        upto <= usize::MAX,
        lo <= hi,
    ensures
        erased_upto(span(lo, hi), upto) == if upto <= lo {
            0
        } else if upto <= hi {
            upto - lo
        } else {
            hi - lo
        },
    decreases upto,
{
    if upto > 0 {
        lemma_count_span(lo, hi, (upto - 1) as nat);
    }
}

/// The nodes of a union are no more than the nodes of both sets.
pub proof fn lemma_count_union(a: Set<usize>, b: Set<usize>, c: Set<usize>, upto: nat)
    requires
        upto <= usize::MAX,
        forall|x: usize| x < upto && c.contains(x) ==> a.contains(x) || b.contains(x),
    ensures
        erased_upto(c, upto) <= erased_upto(a, upto) + erased_upto(b, upto),
    decreases upto,
{
    if upto > 0 {
        lemma_count_union(a, b, c, (upto - 1) as nat);
    }
}

/// The helpers and the lost node, by external index.
pub open spec fn taken(helpers: Set<usize>, lost_node: usize) -> Set<usize> {
    helpers.insert(lost_node)
}

/// Every data chunk is aloof or taken.
proof fn lemma_count_aloof_data(p: EncodeParams, lost_node: usize, helpers: Set<usize>, j: nat)
    requires
        p.wf(),
        lost_node < p.n,
        j <= p.k,
    ensures
        erased_upto(aloof_set(p, p.to_internal(lost_node as int) as nat, helpers), j)
            + erased_upto(taken(helpers, lost_node), j) == j,
    decreases j,
{
    p.lemma_wf();
    let lost = p.to_internal(lost_node as int) as nat;
    let aloof = aloof_set(p, lost, helpers);
    if j > 0 {
        lemma_count_aloof_data(p, lost_node, helpers, (j - 1) as nat);
        let i = (j - 1) as usize;
        assert(to_external(p, i as int) == i);
        assert(aloof.contains(i) <==> is_aloof(p, lost, helpers, i as nat));
    }
}

/// Every parity chunk is aloof or taken.
proof fn lemma_count_aloof_parity(p: EncodeParams, lost_node: usize, helpers: Set<usize>, j: nat)
    requires
        p.wf(),
        lost_node < p.n,
        j <= p.m,
    ensures
        erased_upto(
            aloof_set(p, p.to_internal(lost_node as int) as nat, helpers),
            (p.k + p.nu + j) as nat,
        ) + erased_upto(taken(helpers, lost_node), (p.k + j) as nat) == p.k + j,
    decreases j,
{
    p.lemma_wf();
    let lost = p.to_internal(lost_node as int) as nat;
    let aloof = aloof_set(p, lost, helpers);
    if j > 0 {
        lemma_count_aloof_parity(p, lost_node, helpers, (j - 1) as nat);
        let i = (p.k + p.nu + j - 1) as usize;
        let ext = (p.k + j - 1) as usize;
        assert(to_external(p, i as int) == ext);
        assert(aloof.contains(i) <==> is_aloof(p, lost, helpers, i as nat));
    } else {
        lemma_count_aloof_data(p, lost_node, helpers, p.k as nat);
        lemma_count_shortened(p, lost_node, helpers, p.nu as nat);
    }
}

/// No shortened node is aloof.
proof fn lemma_count_shortened(p: EncodeParams, lost_node: usize, helpers: Set<usize>, j: nat)
    requires
        p.wf(),
        j <= p.nu,
    ensures
        erased_upto(
            aloof_set(p, p.to_internal(lost_node as int) as nat, helpers),
            (p.k + j) as nat,
        ) == erased_upto(
            aloof_set(p, p.to_internal(lost_node as int) as nat, helpers),
            p.k as nat,
        ),
    decreases j,
{
    p.lemma_wf();
    if j > 0 {
        lemma_count_shortened(p, lost_node, helpers, (j - 1) as nat);
        let lost = p.to_internal(lost_node as int) as nat;
        let i = (p.k + j - 1) as usize;
        assert(aloof_set(p, lost, helpers).contains(i) <==> is_aloof(p, lost, helpers, i as nat));
    }
}

/// With `d` helpers or more, all of them chunks and none of them the lost
/// one, the repair recovers no more nodes in a layer than the scalar code
/// can bear.
pub proof fn lemma_base_is_small(p: EncodeParams, lost_node: usize, helpers: Set<usize>)
    requires
        p.wf(),
        lost_node < p.n,
        helpers.finite(),
        helpers.len() >= p.k + p.q - 1,
        !helpers.contains(lost_node),
        forall|x: usize| helpers.contains(x) ==> x < p.n,
    ensures
        erased_count(p, base_set(p, p.to_internal(lost_node as int) as nat, helpers)) <= p.m,
{
    p.lemma_wf();
    let lost = p.to_internal(lost_node as int) as nat;
    let aloof = aloof_set(p, lost, helpers);
    let base = base_set(p, lost, helpers);
    let t = taken(helpers, lost_node);
    lemma_count_aloof_parity(p, lost_node, helpers, p.m as nat);
    assert(erased_upto(aloof, p.nodes()) + erased_upto(t, p.n as nat) == p.n);
    lemma_count_is_len(t, p.n as nat);
    assert(t.len() == helpers.len() + 1);
    // the y-section of the lost node
    lemma_node_geometry(p, lost, 0);
    let y = lost / (p.q as nat);
    let lo = (y * p.q) as nat;
    let hi = (y * p.q + p.q) as nat;
    assert(hi <= p.nodes()) by (nonlinear_arith)
        requires
            hi == y * p.q + p.q,
            y < p.t,
            p.nodes() == p.q * p.t,
    ;
    lemma_count_span(lo, hi, p.nodes());
    assert forall|x: usize| x < p.nodes() && base.contains(x) implies aloof.contains(x) || span(
        lo,
        hi,
    ).contains(x) by {
        if x as nat / (p.q as nat) == y {
            vstd::arithmetic::div_mod::lemma_fundamental_div_mod(x as int, p.q as int);
            vstd::arithmetic::div_mod::lemma_mod_bound(x as int, p.q as int);
            assert(p.q * y == y * p.q) by (nonlinear_arith);
        }
    }
    lemma_count_union(aloof, span(lo, hi), base, p.nodes());
}

/// Whether `helper_data` holds, for each of its helpers, the sub-chunks
/// of the helper's chunk in the layers in which the lost node is red, one
/// after the other: what the plan of the repair asks the helper for.
pub open spec fn is_partial_of(
    p: EncodeParams,
    chunks: Seq<Vec<u8>>,
    lost_node: usize,
    size: nat,
    helper_data: Map<usize, Vec<u8>>,
) -> bool {
    &&& helper_data.dom().finite()
    &&& forall|ext: usize| #[trigger] helper_data.contains_key(ext) ==> ext < p.n && ext != lost_node
    &&& forall|ext: usize|
        helper_data.contains_key(ext) ==> (#[trigger] helper_data[ext])@.len() == (p.sub_chunk_no
            / p.q) * size
    &&& forall|ext: usize, i: int|
        helper_data.contains_key(ext) && 0 <= i < p.sub_chunk_no / p.q ==> #[trigger] row_cell(
            helper_data[ext]@,
            i,
            size,
        ) == row_cell(
            chunks[ext as int]@,
            repair_layer(p, p.to_internal(lost_node as int) as nat, i as nat) as int,
            size,
        )
}

/// Repair recovers what encoding made: from the sub-chunks that the plan
/// asks `d` or more helpers for, among them every other chunk of the lost
/// chunk's y-section, `repair` gives the lost chunk as it was encoded.
pub proof fn lemma_repair_recovers(
    p: EncodeParams,
    data: Seq<u8>,
    chunks: Seq<Vec<u8>>,
    lost_node: usize,
    helper_data: Map<usize, Vec<u8>>,
    r: Result<Vec<u8>, ClayError>,
)
    requires
        p.wf(),
        encodable(p, data.len()),
        encode_post(p, data, chunks),
        lost_node < p.n,
        helper_data.dom().len() >= p.k + p.q - 1,
        is_partial_of(p, chunks, lost_node, sub_chunk_size_for(p, data.len()), helper_data),
        forall|x: nat|
            x < p.q ==> !#[trigger] is_missing_sibling(
                p,
                p.to_internal(lost_node as int) as nat,
                helper_data.dom(),
                x,
            ),
        chunk_size_for(p, data.len()) <= usize::MAX,
        repair_post(p, lost_node, helper_data, chunk_size_for(p, data.len()) as usize, r),
    ensures
        r is Ok,
        r->Ok_0@ == chunks[lost_node as int]@,
{
    p.lemma_wf();
    lemma_padding(p, data.len());
    let size = sub_chunk_size_for(p, data.len());
    let cs = chunk_size_for(p, data.len());
    let lost = p.to_internal(lost_node as int) as nat;
    let word = internal_chunks(p, chunks, cs);
    lemma_repair_layers(p, lost);
    assert(cs == p.sub_chunk_no * size);
    assert(cs >= 2) by (nonlinear_arith)
        requires
            cs == p.sub_chunk_no * size,
            p.sub_chunk_no >= 2,
            size >= 2,
    ;
    assert(p.sub_chunk_no * size == size * p.sub_chunk_no) by (nonlinear_arith);
    vstd::arithmetic::div_mod::lemma_div_multiples_vanish(size as int, p.sub_chunk_no as int);
    vstd::arithmetic::div_mod::lemma_mod_multiples_basic(size as int, p.sub_chunk_no as int);
    assert((cs as usize) / p.sub_chunk_no == size);
    assert(helpers_ok(p, helper_data, ((p.sub_chunk_no / p.q) * size) as nat));
    assert(repair_input_ok(p, lost_node, helper_data, cs as usize));
    lemma_base_is_small(p, lost_node, helper_data.dom());
    assert(r is Ok);
    assert forall|ext: usize, i: int|
        helper_data.contains_key(ext) && p.to_internal(ext as int) != lost && 0 <= i
            < p.sub_chunk_no / p.q implies #[trigger] row_cell(helper_data[ext]@, i, size) == cell(
        word,
        p.to_internal(ext as int),
        repair_layer(p, lost, i as nat) as int,
        size,
    ) by {
        assert(word[p.to_internal(ext as int)] == chunks[ext as int]@);
    }
    assert(helper_data_agree(p, size, lost, helper_data, word));
    assert(is_clay_codeword(p, size, word));
    assert(word[lost as int] == chunks[lost_node as int]@);
}

/// Whether a list of helpers is one that a repair can work with: chunks,
/// each once, none of them the lost one.
pub open spec fn helpers_fit(p: EncodeParams, lost_node: usize, hs: Seq<usize>) -> bool {
    &&& hs.no_duplicates()
    &&& forall|i: int| 0 <= i < hs.len() ==> #[trigger] hs[i] < p.n && hs[i] != lost_node
}

/// Whether `v` is the external index of an available node of the lost
/// node's y-section at a place below `upto`.
pub open spec fn is_sibling_entry(
    p: EncodeParams,
    lost: nat,
    available: Seq<usize>,
    upto: nat,
    v: usize,
) -> bool {
    exists|x: nat|
        x < upto && #[trigger] is_sibling_helper(p, lost, available, x) && v == to_external(
            p,
            sibling(p, lost, x) as int,
        )
}

/// The available nodes of the lost node's y-section are listed once each,
/// and they are chunks other than the lost one.
proof fn lemma_siblings_fit(
    p: EncodeParams,
    lost_node: usize,
    available: Seq<usize>,
    upto: nat,
)
    requires
        p.wf(),
        lost_node < p.n,
        upto <= p.q,
    ensures
        helpers_fit(
            p,
            lost_node,
            sibling_helpers(p, p.to_internal(lost_node as int) as nat, available, upto),
        ),
        forall|i: int|
            0 <= i < sibling_helpers(
                p,
                p.to_internal(lost_node as int) as nat,
                available,
                upto,
            ).len() ==> is_sibling_entry(
                p,
                p.to_internal(lost_node as int) as nat,
                available,
                upto,
                #[trigger] sibling_helpers(
                    p,
                    p.to_internal(lost_node as int) as nat,
                    available,
                    upto,
                )[i],
            ),
    decreases upto,
{
    p.lemma_wf();
    let lost = p.to_internal(lost_node as int) as nat;
    if upto > 0 {
        let x = (upto - 1) as nat;
        lemma_siblings_fit(p, lost_node, available, x);
        let prev = sibling_helpers(p, lost, available, x);
        let cur = sibling_helpers(p, lost, available, upto);
        lemma_node_geometry(p, lost, 0);
        crate::decode::lemma_node_in_range(p, x, lost / (p.q as nat));
        assert forall|i: int| 0 <= i < prev.len() implies is_sibling_entry(
            p,
            lost,
            available,
            upto,
            #[trigger] prev[i],
        ) by {
            assert(is_sibling_entry(p, lost, available, x, prev[i]));
            let x2 = choose|x2: nat|
                x2 < x && #[trigger] is_sibling_helper(p, lost, available, x2) && prev[i]
                    == to_external(p, sibling(p, lost, x2) as int);
            assert(x2 < upto);
        }
        if is_sibling_helper(p, lost, available, x) {
            let node = sibling(p, lost, x);
            let ext = to_external(p, node as int) as usize;
            assert(cur == prev.push(ext));
            assert forall|i: int| 0 <= i < prev.len() implies prev[i] != ext by {
                assert(is_sibling_entry(p, lost, available, x, prev[i]));
                let x2 = choose|x2: nat|
                    x2 < x && #[trigger] is_sibling_helper(p, lost, available, x2) && prev[i]
                        == to_external(p, sibling(p, lost, x2) as int);
                crate::decode::lemma_node_in_range(p, x2, lost / (p.q as nat));
            }
            assert(is_sibling_entry(p, lost, available, upto, ext));
        } else {
            assert(cur == prev);
        }
        assert forall|i: int| 0 <= i < cur.len() implies #[trigger] cur[i] < p.n && cur[i]
            != lost_node by {
            assert(is_sibling_entry(p, lost, available, upto, cur[i]));
            let x3 = choose|x3: nat|
                x3 < upto && #[trigger] is_sibling_helper(p, lost, available, x3) && cur[i]
                    == to_external(p, sibling(p, lost, x3) as int);
            crate::decode::lemma_node_in_range(p, x3, lost / (p.q as nat));
        }
    }
}

/// Filling up keeps a list of helpers fit, and passes over an available
/// chunk only when the list is full or holds it.
proof fn lemma_fill_fits(
    p: EncodeParams,
    lost_node: usize,
    h: Seq<usize>,
    available: Seq<usize>,
    d: nat,
    upto: nat,
)
    requires
        helpers_fit(p, lost_node, h),
        upto <= available.len(),
        forall|j: int| 0 <= j < available.len() ==> #[trigger] available[j] < p.n,
    ensures
        helpers_fit(p, lost_node, fill_helpers(h, available, lost_node, d, upto)),
        forall|j: int|
            0 <= j < upto ==> fill_helpers(h, available, lost_node, d, upto).len() >= d
                || fill_helpers(h, available, lost_node, d, upto).contains(#[trigger] available[j])
                || available[j] == lost_node,
        forall|i: int| 0 <= i < h.len() ==> fill_helpers(h, available, lost_node, d, upto)[i] == h[i],
        h.len() <= fill_helpers(h, available, lost_node, d, upto).len(),
    decreases upto,
{
    if upto > 0 {
        lemma_fill_fits(p, lost_node, h, available, d, (upto - 1) as nat);
        let prev = fill_helpers(h, available, lost_node, d, (upto - 1) as nat);
        let cur = fill_helpers(h, available, lost_node, d, upto);
        let node = available[upto - 1];
        assert forall|j: int| 0 <= j < upto implies cur.len() >= d || cur.contains(
            #[trigger] available[j],
        ) || available[j] == lost_node by {
            if j < upto - 1 {
                if prev.contains(available[j]) {
                    let i = choose|i: int| 0 <= i < prev.len() && prev[i] == available[j];
                    assert(cur[i] == available[j]);
                }
            } else {
                if prev.len() < d && !prev.contains(node) && node != lost_node {
                    assert(cur[cur.len() - 1] == node);
                } else if prev.contains(node) {
                    let i = choose|i: int| 0 <= i < prev.len() && prev[i] == node;
                    assert(cur[i] == node);
                }
            }
        }
    }
}

/// The plan serves the repair: where all other chunks are available, the
/// plan lists `d` helpers, chunks other than the lost one and each once,
/// and among them every chunk of the lost chunk's y-section.
pub proof fn lemma_plan_serves_repair(
    p: EncodeParams,
    lost_node: usize,
    available: Seq<usize>,
    r: Result<Vec<(usize, Vec<usize>)>, ClayError>,
)
    requires
        p.wf(),
        lost_node < p.n,
        forall|j: int| 0 <= j < available.len() ==> #[trigger] available[j] < p.n,
        forall|ext: usize| ext < p.n && ext != lost_node ==> available.contains(ext),
        plan_post(p, lost_node, available, r),
    ensures
        r is Ok,
        helper_nodes(r->Ok_0@).len() == p.k + p.q - 1,
        helpers_fit(p, lost_node, helper_nodes(r->Ok_0@)),
        forall|x: nat|
            x < p.q ==> !#[trigger] is_missing_sibling(
                p,
                p.to_internal(lost_node as int) as nat,
                helper_nodes(r->Ok_0@).to_set(),
                x,
            ),
{
    p.lemma_wf();
    let lost = p.to_internal(lost_node as int) as nat;
    let d = (p.k + p.q - 1) as nat;
    let sibs = sibling_helpers(p, lost, available, p.q as nat);
    let hs = chosen_helpers(p, lost_node, available);
    lemma_siblings_fit(p, lost_node, available, p.q as nat);
    lemma_siblings_count(p, lost, available, p.q as nat);
    lemma_fill_fits(p, lost_node, sibs, available, d, available.len());
    lemma_fill_keeps(sibs, available, lost_node, d, available.len());
    // the lost node is no sibling helper, so there are fewer than q
    if hs.len() < d {
        // every other chunk is listed
        let others = below(p.n as nat).remove(lost_node);
        lemma_below(p.n as nat);
        assert(hs == fill_helpers(sibs, available, lost_node, d, available.len()));
        assert forall|ext: usize| others.contains(ext) implies hs.to_set().contains(ext) by {
            assert(ext < p.n && ext != lost_node);
            assert(available.contains(ext));
            let j = choose|j: int| 0 <= j < available.len() && available[j] == ext;
            assert(hs.len() >= d || hs.contains(available[j]) || available[j] == lost_node);
            assert(hs.contains(ext));
        }
        hs.unique_seq_to_set();
        vstd::seq_lib::seq_to_set_is_finite(hs);
        vstd::set_lib::lemma_len_subset(others, hs.to_set());
        assert(false);
    }
    assert(r is Ok);
    assert(helper_nodes(r->Ok_0@) == hs);
    assert forall|x: nat| x < p.q implies !#[trigger] is_missing_sibling(
        p,
        lost,
        hs.to_set(),
        x,
    ) by {
        let node = sibling(p, lost, x);
        if node != lost && !p.is_shortened(node as int) {
            lemma_node_geometry(p, lost, 0);
            crate::decode::lemma_node_in_range(p, x, lost / (p.q as nat));
            let ext = to_external(p, node as int) as usize;
            assert(ext < p.n && ext != lost_node);
            assert(available.contains(ext));
            assert(is_sibling_helper(p, lost, available, x));
            lemma_siblings_listed(p, lost, available, p.q as nat, x);
            let i = choose|i: int| 0 <= i < sibs.len() && sibs[i] == ext;
            assert(hs[i] == ext);
            assert(hs.to_set().contains(ext));
        }
    }
}

/// The bandwidth of a repair: `d` helpers hand over `alpha / q` sub-chunks
/// each, which is `d / q` of one chunk in all. With two data chunks or
/// more that is less than the `k` chunks that decoding reads; with one
/// data chunk it is as much.
pub proof fn lemma_repair_bandwidth(p: EncodeParams, size: nat)
    requires
        p.wf(),
        size >= 1,
    ensures
        (p.k + p.q - 1) * (p.sub_chunk_no / p.q) * size == (p.sub_chunk_no * size * (p.k + p.q
            - 1)) / (p.q as int),
        p.k >= 2 ==> p.k + p.q - 1 < p.k * p.q,
        p.k >= 2 ==> (p.k + p.q - 1) * (p.sub_chunk_no / p.q) * size < p.k * p.sub_chunk_no * size,
        p.k == 1 ==> (p.k + p.q - 1) * (p.sub_chunk_no / p.q) * size == p.k * p.sub_chunk_no * size,
{
    p.lemma_wf();
    let q = p.q as int;
    let k = p.k as int;
    let d = k + q - 1;
    let alpha = p.sub_chunk_no as int;
    let beta = alpha / q;
    let sz = size as int;
    vstd::arithmetic::div_mod::lemma_fundamental_div_mod(alpha, q);
    assert(alpha == q * beta);
    assert(beta >= 1) by (nonlinear_arith)
        requires
            alpha == q * beta,
            alpha >= 2,
            q >= 2,
    ;
    let total = d * beta * sz;
    assert(alpha * sz * d == total * q) by (nonlinear_arith)
        requires
            alpha == q * beta,
            total == d * beta * sz,
    ;
    vstd::arithmetic::div_mod::lemma_div_multiples_vanish(total, q);
    if k >= 2 {
        assert(d < k * q) by (nonlinear_arith)
            requires
                d == k + q - 1,
                k >= 2,
                q >= 2,
        ;
        assert(total < k * alpha * sz) by (nonlinear_arith)
            requires
                total == d * beta * sz,
                alpha == q * beta,
                d < k * q,
                beta >= 1,
                sz >= 1,
        ;
    } else {
        assert(total == k * alpha * sz) by (nonlinear_arith)
            requires
                total == d * beta * sz,
                alpha == q * beta,
                d == q,
                k == 1,
        ;
    }
}

/// Chunks and nodes: every chunk has a node that is not shortened, every
/// node that is not shortened is the node of a chunk, and the two ways of
/// counting undo each other. No shortened node has an external index.
pub proof fn lemma_chunks_and_nodes(p: EncodeParams, ext: int, node: int)
    requires
        p.wf(),
    ensures
        0 <= ext < p.n ==> 0 <= p.to_internal(ext) < p.nodes() && !p.is_shortened(
            p.to_internal(ext),
        ) && to_external(p, p.to_internal(ext)) == ext,
        0 <= node < p.nodes() && !p.is_shortened(node) ==> 0 <= to_external(p, node) < p.n
            && p.to_internal(to_external(p, node)) == node,
{
    p.lemma_wf();
}

} // verus!
