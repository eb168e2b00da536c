//! The code words of the Clay code, and what decoding makes of them.
//!
//! A buffer of coupled values is a code word when its shortened nodes hold
//! zeros and, in every layer, the uncoupled values of all nodes form a code
//! word of the scalar code. The uncoupled value of a red vertex is its
//! coupled value; that of any other vertex is its coupled value plus γ
//! times the coupled value of its companion.

use vstd::prelude::*;
use crate::codec::rs_parity;
use crate::encode::EncodeParams;
use crate::layout::{cell, has_shape};
use crate::planes::{lemma_companion_geometry, lemma_node_geometry, lemma_score_of_companion, score};
use crate::transforms::{
    lemma_partial_formulas,
    lemma_prt_inverts_pft,
    mix,
    u_of_c_and_ustar,
    unmix,
};

verus! {

/// Layer `z` of the first `upto` rows of a buffer: one sub-chunk per node.
pub open spec fn layer(b: Seq<Seq<u8>>, z: int, size: nat, upto: nat) -> Seq<Seq<u8>> {
    Seq::new(upto, |n: int| cell(b, n, z, size))
}

/// The uncoupled value of `node` in layer `z` of a buffer of coupled
/// values.
pub open spec fn ucell(p: EncodeParams, size: nat, c: Seq<Seq<u8>>, node: int, z: int) -> Seq<u8> {
    if p.is_red(node as nat, z as nat) {
        cell(c, node, z, size)
    } else {
        mix(
            cell(c, node, z, size),
            cell(
                c,
                p.companion_node(node as nat, z as nat) as int,
                p.companion_layer(node as nat, z as nat) as int,
                size,
            ),
        )
    }
}

/// Layer `z` of the uncoupled values of a buffer of coupled values.
pub open spec fn ulayer(p: EncodeParams, size: nat, c: Seq<Seq<u8>>, z: int) -> Seq<Seq<u8>> {
    Seq::new(p.nodes(), |n: int| ucell(p, size, c, n, z))
}

/// Whether one sub-chunk per node makes a code word of the scalar code:
/// the sub-chunks of the parity nodes are the parity of the others.
pub open spec fn is_layer_codeword(p: EncodeParams, word: Seq<Seq<u8>>) -> bool {
    &&& word.len() == p.nodes()
    &&& word.subrange(p.original_count as int, p.nodes() as int) == rs_parity(
        word.subrange(0, p.original_count as int),
        p.m as nat,
    )
}

/// Whether every shortened node of a buffer holds zeros.
pub open spec fn shortened_are_zero(p: EncodeParams, size: nat, c: Seq<Seq<u8>>) -> bool {
    forall|node: int|
        0 <= node < p.nodes() && p.is_shortened(node) ==> #[trigger] c[node] == Seq::new(
            (p.sub_chunk_no * size) as nat,
            |j: int| 0u8,
        )
}

/// Whether a buffer of coupled values is a code word of the Clay code with
/// sub-chunks of `size` bytes.
pub open spec fn is_clay_codeword(p: EncodeParams, size: nat, c: Seq<Seq<u8>>) -> bool {
    &&& has_shape(c, p.nodes(), p.sub_chunk_no as nat, size)
    &&& shortened_are_zero(p, size, c)
    &&& forall|z: int|
        0 <= z < p.sub_chunk_no ==> is_layer_codeword(p, #[trigger] ulayer(p, size, c, z))
}

/// Whether `word` holds one sub-chunk per node and has, for every node
/// that is not erased, the sub-chunk that the buffer has in layer `z`.
pub open spec fn layer_agrees(
    p: EncodeParams,
    size: nat,
    b: Seq<Seq<u8>>,
    e: Set<usize>,
    z: int,
    word: Seq<Seq<u8>>,
) -> bool {
    &&& word.len() == p.nodes()
    &&& forall|n: int| 0 <= n < p.nodes() ==> (#[trigger] word[n]).len() == size
    &&& forall|n: int|
        0 <= n < p.nodes() && !e.contains(n as usize) ==> cell(b, n, z, size) == #[trigger] word[n]
}

/// Whether the uncoupled value of a vertex that is not erased is what
/// phase A computes: the coupled value of a red vertex; for a pair that is
/// not erased, the transform of both coupled values; for a vertex with an
/// erased companion, the value that its coupled value and the companion's
/// uncoupled value give.
pub open spec fn uncoupled_ok(
    p: EncodeParams,
    size: nat,
    e: Set<usize>,
    c: Seq<Seq<u8>>,
    u: Seq<Seq<u8>>,
    node: int,
    z: int,
) -> bool {
    let ns = p.companion_node(node as nat, z as nat) as int;
    let zs = p.companion_layer(node as nat, z as nat) as int;
    cell(u, node, z, size) == if p.is_red(node as nat, z as nat) {
        cell(c, node, z, size)
    } else if !e.contains(ns as usize) {
        mix(cell(c, node, z, size), cell(c, ns, zs, size))
    } else {
        u_of_c_and_ustar(cell(c, node, z, size), cell(u, ns, zs, size))
    }
}

/// Whether the coupled value of an erased vertex is what phase C computes:
/// the uncoupled value of a red vertex; for a vertex whose companion is
/// not erased, the value that its uncoupled value and the companion's
/// coupled value give; for two erased companions, the transform of both
/// uncoupled values.
pub open spec fn coupled_ok(
    p: EncodeParams,
    size: nat,
    e: Set<usize>,
    c: Seq<Seq<u8>>,
    u: Seq<Seq<u8>>,
    node: int,
    z: int,
) -> bool {
    let ns = p.companion_node(node as nat, z as nat) as int;
    let zs = p.companion_layer(node as nat, z as nat) as int;
    cell(c, node, z, size) == if p.is_red(node as nat, z as nat) {
        cell(u, node, z, size)
    } else if !e.contains(ns as usize) {
        mix(cell(u, node, z, size), cell(c, ns, zs, size))
    } else {
        unmix(cell(u, node, z, size), cell(u, ns, zs, size))
    }
}

/// Whether layer `z` of the uncoupled buffer is what phase B makes of the
/// sub-chunks of the nodes that are not erased: where these are part of a
/// code word of the scalar code, the layer is that code word.
pub open spec fn layer_determined(
    p: EncodeParams,
    size: nat,
    e: Set<usize>,
    u: Seq<Seq<u8>>,
    z: int,
) -> bool {
    forall|word: Seq<Seq<u8>>|
        #[trigger] layer_agrees(p, size, u, e, z, word) && is_layer_codeword(p, word) ==> layer(
            u,
            z,
            size,
            p.nodes(),
        ) == word
}

/// Whether the erased nodes are the parity nodes, all of them.
pub open spec fn parity_erased(p: EncodeParams, e: Set<usize>) -> bool {
    forall|n: usize| n < p.nodes() ==> (e.contains(n) <==> n >= p.original_count)
}

/// What the layered decoder leaves behind: the coupled buffer `c_out` that
/// it made of `c_in`, and the uncoupled buffer `u` that it worked with.
/// The nodes that are not erased are as they were; every uncoupled value
/// is what phase A or phase B makes it, every coupled value of an erased
/// node what phase C makes it.
pub open spec fn decoded(
    p: EncodeParams,
    size: nat,
    e: Set<usize>,
    c_in: Seq<Seq<u8>>,
    c_out: Seq<Seq<u8>>,
    u: Seq<Seq<u8>>,
) -> bool {
    &&& has_shape(c_in, p.nodes(), p.sub_chunk_no as nat, size)
    &&& has_shape(c_out, p.nodes(), p.sub_chunk_no as nat, size)
    &&& has_shape(u, p.nodes(), p.sub_chunk_no as nat, size)
    &&& forall|n: int|
        0 <= n < p.nodes() && !e.contains(n as usize) ==> #[trigger] c_out[n] == c_in[n]
    &&& forall|n: int, z: int|
        0 <= n < p.nodes() && 0 <= z < p.sub_chunk_no && !e.contains(n as usize)
            ==> #[trigger] uncoupled_ok(p, size, e, c_out, u, n, z)
    &&& forall|n: int, z: int|
        0 <= n < p.nodes() && 0 <= z < p.sub_chunk_no && e.contains(n as usize)
            ==> #[trigger] coupled_ok(p, size, e, c_out, u, n, z)
    &&& forall|z: int| 0 <= z < p.sub_chunk_no ==> #[trigger] layer_determined(p, size, e, u, z)
    &&& parity_erased(p, e) ==> forall|z: int|
        0 <= z < p.sub_chunk_no ==> is_layer_codeword(p, #[trigger] layer(u, z, size, p.nodes()))
}

/// After decoding, the uncoupled buffer holds the uncoupled values of the
/// coupled buffer that the decoder made.
pub proof fn lemma_uncoupled_of_decoded(
    p: EncodeParams,
    size: nat,
    e: Set<usize>,
    c_in: Seq<Seq<u8>>,
    c_out: Seq<Seq<u8>>,
    u: Seq<Seq<u8>>,
    node: int,
    z: int,
)
    requires
        p.wf(),
        decoded(p, size, e, c_in, c_out, u),
        0 <= node < p.nodes(),
        0 <= z < p.sub_chunk_no,
    ensures
        cell(u, node, z, size) == ucell(p, size, c_out, node, z),
{
    lemma_node_geometry(p, node as nat, z as nat);
    lemma_companion_geometry(p, node as nat, z as nat);
    let ns = p.companion_node(node as nat, z as nat) as int;
    let zs = p.companion_layer(node as nat, z as nat) as int;
    lemma_cell_len(p, size, c_out, node, z);
    lemma_cell_len(p, size, c_out, ns, zs);
    lemma_cell_len(p, size, u, node, z);
    lemma_cell_len(p, size, u, ns, zs);
    let c = cell(c_out, node, z, size);
    let cs = cell(c_out, ns, zs, size);
    let uu = cell(u, node, z, size);
    let us = cell(u, ns, zs, size);
    if !p.is_red(node as nat, z as nat) {
        lemma_node_geometry(p, ns as nat, zs as nat);
        if e.contains(node as usize) {
            assert(coupled_ok(p, size, e, c_out, u, node, z));
            if e.contains(ns as usize) {
                // both erased: the pair came out of one forward transform
                assert(coupled_ok(p, size, e, c_out, u, ns, zs));
                lemma_prt_inverts_pft(uu, us);
            } else {
                // C = U + γ·C*
                lemma_mix_twice(uu, cs);
            }
        } else {
            assert(uncoupled_ok(p, size, e, c_out, u, node, z));
            if e.contains(ns as usize) {
                // the companion was coupled from its uncoupled value and C
                assert(coupled_ok(p, size, e, c_out, u, ns, zs));
                lemma_mix_twice(us, c);
                lemma_partial_formulas(c, cs);
            }
        }
    } else {
        if e.contains(node as usize) {
            assert(coupled_ok(p, size, e, c_out, u, node, z));
        } else {
            assert(uncoupled_ok(p, size, e, c_out, u, node, z));
        }
    }
}

/// `(a + γ·b) + γ·b = a`.
pub proof fn lemma_mix_twice(a: Seq<u8>, b: Seq<u8>)
    requires
        a.len() == b.len(),
    ensures
        mix(mix(a, b), b) == a,
{
    lemma_partial_formulas(a, b);
}

/// Every cell of a buffer has `size` bytes.
pub proof fn lemma_cell_len(p: EncodeParams, size: nat, b: Seq<Seq<u8>>, node: int, z: int)
    requires
        has_shape(b, p.nodes(), p.sub_chunk_no as nat, size),
        0 <= node < p.nodes(),
        0 <= z < p.sub_chunk_no,
    ensures
        cell(b, node, z, size).len() == size,
{
    crate::layout::lemma_cell_bounds(z as nat, p.sub_chunk_no as nat, size);
}

/// Every uncoupled value of a buffer has `size` bytes.
pub proof fn lemma_ucell_len(p: EncodeParams, size: nat, c: Seq<Seq<u8>>, node: int, z: int)
    requires
        p.wf(),
        has_shape(c, p.nodes(), p.sub_chunk_no as nat, size),
        0 <= node < p.nodes(),
        0 <= z < p.sub_chunk_no,
    ensures
        ucell(p, size, c, node, z).len() == size,
{
    lemma_cell_len(p, size, c, node, z);
}

/// Where the parity nodes are what was erased, the decoder leaves a code
/// word behind, given that the shortened nodes held zeros: encoding makes
/// code words.
pub proof fn lemma_decoded_is_codeword(
    p: EncodeParams,
    size: nat,
    e: Set<usize>,
    c_in: Seq<Seq<u8>>,
    c_out: Seq<Seq<u8>>,
    u: Seq<Seq<u8>>,
)
    requires
        p.wf(),
        decoded(p, size, e, c_in, c_out, u),
        parity_erased(p, e),
        shortened_are_zero(p, size, c_in),
    ensures
        is_clay_codeword(p, size, c_out),
{
    p.lemma_wf();
    assert forall|z: int| 0 <= z < p.sub_chunk_no implies is_layer_codeword(
        p,
        #[trigger] ulayer(p, size, c_out, z),
    ) by {
        assert forall|n: int| 0 <= n < p.nodes() implies ulayer(p, size, c_out, z)[n] == layer(
            u,
            z,
            size,
            p.nodes(),
        )[n] by {
            lemma_uncoupled_of_decoded(p, size, e, c_in, c_out, u, n, z);
        }
        assert(ulayer(p, size, c_out, z) =~= layer(u, z, size, p.nodes()));
        assert(is_layer_codeword(p, layer(u, z, size, p.nodes())));
    }
    assert forall|node: int| 0 <= node < p.nodes() && p.is_shortened(node) implies #[trigger] c_out[node]
        == Seq::new((p.sub_chunk_no * size) as nat, |j: int| 0u8) by {
        assert(!e.contains(node as usize));
        assert(c_out[node] == c_in[node]);
    }
}

/// Whether a buffer has, in every node that is not erased, the chunk that
/// `word` has.
pub open spec fn agrees_outside(p: EncodeParams, e: Set<usize>, c: Seq<Seq<u8>>, word: Seq<Seq<u8>>) -> bool {
    forall|n: int| 0 <= n < p.nodes() && !e.contains(n as usize) ==> #[trigger] c[n] == word[n]
}

/// Where the decoder was given the chunks of a code word, its uncoupled
/// buffer holds the uncoupled values of that code word in every layer of a
/// score below `s`. By induction on `s`: a vertex with an erased companion
/// draws on a layer of lower score.
pub proof fn lemma_decoded_uncoupled(
    p: EncodeParams,
    size: nat,
    e: Set<usize>,
    c_in: Seq<Seq<u8>>,
    c_out: Seq<Seq<u8>>,
    u: Seq<Seq<u8>>,
    word: Seq<Seq<u8>>,
    s: nat,
)
    requires
        p.wf(),
        decoded(p, size, e, c_in, c_out, u),
        is_clay_codeword(p, size, word),
        agrees_outside(p, e, c_in, word),
    ensures
        forall|n: int, z: int|
            0 <= n < p.nodes() && 0 <= z < p.sub_chunk_no && score(p, e, z as nat) < s
                ==> #[trigger] cell(u, n, z, size) == ucell(p, size, word, n, z),
    decreases s,
{
    if s > 0 {
        lemma_decoded_uncoupled(p, size, e, c_in, c_out, u, word, (s - 1) as nat);
        assert forall|z: int|
            0 <= z < p.sub_chunk_no && score(p, e, z as nat) == s - 1 implies layer(
            u,
            z,
            size,
            p.nodes(),
        ) == ulayer(p, size, word, z) by {
            let w = ulayer(p, size, word, z);
            assert forall|n: int| 0 <= n < p.nodes() && !e.contains(n as usize) implies cell(
                u,
                n,
                z,
                size,
            ) == #[trigger] w[n] by {
                lemma_node_geometry(p, n as nat, z as nat);
                lemma_companion_geometry(p, n as nat, z as nat);
                lemma_score_of_companion(p, e, n as nat, z as nat);
                let ns = p.companion_node(n as nat, z as nat) as int;
                let zs = p.companion_layer(n as nat, z as nat) as int;
                assert(uncoupled_ok(p, size, e, c_out, u, n, z));
                assert(c_out[n] == c_in[n]);
                assert(c_in[n] == word[n]);
                if !p.is_red(n as nat, z as nat) {
                    lemma_cell_len(p, size, word, n, z);
                    lemma_cell_len(p, size, word, ns, zs);
                    if !e.contains(ns as usize) {
                        assert(c_out[ns] == c_in[ns]);
                        assert(c_in[ns] == word[ns]);
                    } else {
                        lemma_node_geometry(p, ns as nat, zs as nat);
                        assert(cell(u, ns, zs, size) == ucell(p, size, word, ns, zs));
                        lemma_partial_formulas(cell(word, n, z, size), cell(word, ns, zs, size));
                    }
                }
            }
            assert forall|n: int| 0 <= n < p.nodes() implies (#[trigger] w[n]).len() == size by {
                lemma_ucell_len(p, size, word, n, z);
            }
            assert(layer_agrees(p, size, u, e, z, w));
            assert(is_layer_codeword(p, w));
            assert(layer_determined(p, size, e, u, z));
        }
        assert forall|n: int, z: int|
            0 <= n < p.nodes() && 0 <= z < p.sub_chunk_no && score(p, e, z as nat)
                < s implies #[trigger] cell(u, n, z, size) == ucell(p, size, word, n, z) by {
            if score(p, e, z as nat) == s - 1 {
                assert(layer(u, z, size, p.nodes())[n] == ulayer(p, size, word, z)[n]);
            }
        }
    }
}

/// Two rows of the same length whose sub-chunks are the same are the same.
pub proof fn lemma_rows_equal(a: Seq<u8>, b: Seq<u8>, alpha: nat, size: nat)
    requires
        a.len() == alpha * size,
        b.len() == alpha * size,
        forall|z: int|
            0 <= z < alpha ==> #[trigger] a.subrange(z * size, z * size + size) == b.subrange(
                z * size,
                z * size + size,
            ),
    ensures
        a == b,
{
    if size > 0 {
        assert forall|j: int| 0 <= j < a.len() implies a[j] == b[j] by {
            let z = j / (size as int);
            let off = j % (size as int);
            vstd::arithmetic::div_mod::lemma_fundamental_div_mod(j, size as int);
            vstd::arithmetic::div_mod::lemma_mod_bound(j, size as int);
            assert(size * z == z * size) by (nonlinear_arith);
            assert(0 <= z < alpha) by (nonlinear_arith)
                requires
                    j == z * size + off,
                    0 <= off < size,
                    0 <= j < alpha * size,
            ;
            crate::layout::lemma_cell_bounds(z as nat, alpha, size);
            let sa = a.subrange(z * size, z * size + size);
            let sb = b.subrange(z * size, z * size + size);
            assert(sa[off] == a[j]);
            assert(sb[off] == b[j]);
        }
    } else {
        assert(alpha * size == 0) by (nonlinear_arith)
            requires
                size == 0,
        ;
    }
    assert(a =~= b);
}

/// The decoder recovers code words: given the chunks of a code word, with
/// whatever in the place of the erased ones, it leaves that code word
/// behind.
pub proof fn lemma_decoded_is_the_codeword(
    p: EncodeParams,
    size: nat,
    e: Set<usize>,
    c_in: Seq<Seq<u8>>,
    c_out: Seq<Seq<u8>>,
    u: Seq<Seq<u8>>,
    word: Seq<Seq<u8>>,
)
    requires
        p.wf(),
        decoded(p, size, e, c_in, c_out, u),
        is_clay_codeword(p, size, word),
        agrees_outside(p, e, c_in, word),
    ensures
        c_out == word,
{
    p.lemma_wf();
    lemma_decoded_uncoupled(p, size, e, c_in, c_out, u, word, (p.t + 1) as nat);
    assert forall|n: int| 0 <= n < p.nodes() implies c_out[n] == word[n] by {
        if e.contains(n as usize) {
            assert forall|z: int| 0 <= z < p.sub_chunk_no implies #[trigger] c_out[n].subrange(
                z * size,
                z * size + size,
            ) == word[n].subrange(z * size, z * size + size) by {
                lemma_node_geometry(p, n as nat, z as nat);
                lemma_companion_geometry(p, n as nat, z as nat);
                lemma_score_of_companion(p, e, n as nat, z as nat);
                let ns = p.companion_node(n as nat, z as nat) as int;
                let zs = p.companion_layer(n as nat, z as nat) as int;
                crate::planes::lemma_score_bound(p, e, z as nat, p.t as nat);
                crate::planes::lemma_score_bound(p, e, zs as nat, p.t as nat);
                assert(coupled_ok(p, size, e, c_out, u, n, z));
                assert(cell(u, n, z, size) == ucell(p, size, word, n, z));
                if !p.is_red(n as nat, z as nat) {
                    lemma_node_geometry(p, ns as nat, zs as nat);
                    lemma_cell_len(p, size, word, n, z);
                    lemma_cell_len(p, size, word, ns, zs);
                    let c = cell(word, n, z, size);
                    let cs = cell(word, ns, zs, size);
                    if !e.contains(ns as usize) {
                        assert(c_out[ns] == c_in[ns]);
                        assert(c_in[ns] == word[ns]);
                        lemma_mix_twice(c, cs);
                    } else {
                        assert(cell(u, ns, zs, size) == ucell(p, size, word, ns, zs));
                        crate::transforms::lemma_pft_inverts_prt(c, cs);
                    }
                }
                assert(cell(c_out, n, z, size) == cell(word, n, z, size));
            }
            lemma_rows_equal(c_out[n], word[n], p.sub_chunk_no as nat, size);
        } else {
            assert(c_out[n] == c_in[n]);
            assert(c_in[n] == word[n]);
        }
    }
    assert(c_out =~= word);
}

} // verus!
