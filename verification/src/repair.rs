//! Repair of one lost chunk from parts of the others.
//!
//! The lost node is red in `beta` of the layers. From each of `d` helper
//! nodes the repair reads the sub-chunks of these layers alone, and
//! recovers all sub-chunks of the lost node from them.

use vstd::prelude::*;
use vstd::arithmetic::power::pow;
use std::collections::BTreeSet;
use std::collections::HashMap;
use crate::coords::power;
use crate::codec::{codec_data_shards, codec_error_text, codec_new, codec_parity_shards};
use crate::coords::get_plane_vector;
use crate::decode::{
    buffer_ok,
    compute_cstar_from_c_and_u,
    decode_uncoupled_layer,
    erased_count,
    get_cell,
    get_companion_layer,
    internal_index,
    lemma_node_in_range,
    mark_known,
    no_flags,
    plane_score,
    put_cell,
    DecodeParams,
};
use crate::layout::{load, store_row, zeroed};
use crate::planes::{lemma_companion_geometry, lemma_score_of_companion, red_node, score};
use crate::codeword::{is_clay_codeword, layer, layer_agrees, layer_determined, is_layer_codeword};
use crate::recovery::{
    complete_same,
    hcell,
    helper_known,
    helper_uncoupled_ok,
    helpers_hold,
    lemma_repair_mark,
    lemma_repair_phase_b,
    lemma_repair_step,
    lemma_repaired_is_the_chunk,
    lost_ok,
    lost_set,
    repair_drew,
    repair_settled,
    repaired,
    roles_ok,
};
use crate::layout::{cell, has_shape, row_cell, rows};
use crate::tracking::{flags, flags_ok, grown, known};
use crate::transforms::{compute_u_from_c_and_ustar, cstar_of_c_and_u, prt_compute_both_oriented};
use crate::layout::zero_row;
use crate::maps::{copy_bytes, key_list};
use crate::digits::{digit, lemma_pow_monotonic, lemma_pow_step};
use crate::encode::EncodeParams;
use crate::error::ClayError;
use crate::maps::list_contains;
use crate::planes::lemma_node_geometry;
use crate::power::checked_pow;

verus! {

/// The repair reads the same parameters as the decoder.
pub type RepairParams = DecodeParams;

/// The weight of the digit of the lost node's y-section:
/// `q^(t - 1 - y)` for a node in y-section `y`.
pub open spec fn section_weight(p: EncodeParams, node: nat) -> nat {
    pow(p.q as int, (p.t - 1 - node / (p.q as nat)) as nat) as nat
}

/// The `i`-th of the layers in which `node` is red, in ascending order.
pub open spec fn repair_layer(p: EncodeParams, node: nat, i: nat) -> nat {
    let w = section_weight(p, node);
    ((node % (p.q as nat)) * w + (i / w) * p.q * w + i % w) as nat
}

/// The place of layer `z` among the layers in which `node` is red.
pub open spec fn repair_index(p: EncodeParams, node: nat, z: nat) -> nat {
    let w = section_weight(p, node);
    ((z / (p.q * w) as nat) * w + z % w) as nat
}

/// The layers in which a node is red: there are `alpha / q` of them, each
/// below `alpha`, and layer `z` is among them, at its index, exactly when
/// the node is red in it.
pub proof fn lemma_repair_layers(p: EncodeParams, node: nat)
    requires
        p.wf(),
        node < p.nodes(),
    ensures
        section_weight(p, node) >= 1,
        p.q * section_weight(p, node) * pow(p.q as int, node / (p.q as nat)) == p.sub_chunk_no,
        section_weight(p, node) * pow(p.q as int, node / (p.q as nat)) == p.sub_chunk_no / p.q,
        forall|i: nat|
            i < p.sub_chunk_no / p.q ==> #[trigger] repair_layer(p, node, i) < p.sub_chunk_no
                && p.is_red(node, repair_layer(p, node, i)) && repair_index(
                p,
                node,
                repair_layer(p, node, i),
            ) == i,
        forall|z: nat|
            z < p.sub_chunk_no && p.is_red(node, z) ==> #[trigger] repair_index(p, node, z)
                < p.sub_chunk_no / p.q && repair_layer(p, node, repair_index(p, node, z)) == z,
{
    p.lemma_wf();
    lemma_node_geometry(p, node, 0);
    let q = p.q as int;
    let t = p.t as nat;
    let y = node / (p.q as nat);
    let x = (node % (p.q as nat)) as int;
    let i0 = (t - 1 - y) as nat;
    let w = section_weight(p, node) as int;
    let hi = pow(q, y);
    lemma_pow_step(p.q as nat, i0);
    lemma_pow_step(p.q as nat, y);
    lemma_pow_step(p.q as nat, (t - 1) as nat);
    vstd::arithmetic::power::lemma_pow_adds(q, i0, y);
    assert(w * hi == pow(q, (t - 1) as nat));
    assert(q * w * hi == p.sub_chunk_no) by (nonlinear_arith)
        requires
            w * hi == pow(q, (t - 1) as nat),
            p.sub_chunk_no == q * pow(q, (t - 1) as nat),
    ;
    let beta = p.sub_chunk_no as int / q;
    assert(beta == w * hi);
    let qw = q * w;
    assert(qw >= 1 && qw == w * q) by (nonlinear_arith)
        requires
            qw == q * w,
            q >= 2,
            w >= 1,
    ;
    assert forall|i: nat| i < p.sub_chunk_no / p.q implies #[trigger] repair_layer(p, node, i)
        < p.sub_chunk_no && p.is_red(node, repair_layer(p, node, i)) && repair_index(
        p,
        node,
        repair_layer(p, node, i),
    ) == i by {
        let seq = i as int / w;
        let off = i as int % w;
        vstd::arithmetic::div_mod::lemma_fundamental_div_mod(i as int, w);
        vstd::arithmetic::div_mod::lemma_mod_bound(i as int, w);
        assert(0 <= seq < hi) by (nonlinear_arith)
            requires
                i == w * seq + off,
                0 <= off < w,
                i < w * hi,
                w >= 1,
                i >= 0,
        ;
        let z = x * w + seq * q * w + off;
        assert(z == repair_layer(p, node, i));
        let r = x * w + off;
        assert(0 <= r < qw) by (nonlinear_arith)
            requires
                r == x * w + off,
                0 <= x < q,
                0 <= off < w,
                qw == q * w,
        ;
        assert(z == qw * seq + r) by (nonlinear_arith)
            requires
                z == x * w + seq * q * w + off,
                r == x * w + off,
                qw == q * w,
        ;
        assert(0 <= z < p.sub_chunk_no) by (nonlinear_arith)
            requires
                z == qw * seq + r,
                0 <= r < qw,
                0 <= seq < hi,
                qw * hi == p.sub_chunk_no,
                qw >= 1,
        ;
        // the digit of weight w
        assert(z == w * (seq * q + x) + off) by (nonlinear_arith)
            requires
                z == x * w + seq * q * w + off,
        ;
        vstd::arithmetic::div_mod::lemma_fundamental_div_mod_converse(z, w, seq * q + x, off);
        assert(seq * q == q * seq) by (nonlinear_arith);
        vstd::arithmetic::div_mod::lemma_fundamental_div_mod_converse(seq * q + x, q, seq, x);
        assert(digit(z as nat, p.q as nat, i0) == x);
        // the place in the list
        vstd::arithmetic::div_mod::lemma_fundamental_div_mod_converse(z, qw, seq, r);
        assert(z / qw == seq);
        assert(seq * w + off == i) by (nonlinear_arith)
            requires
                i == w * seq + off,
        ;
    }
    assert forall|z: nat| z < p.sub_chunk_no && p.is_red(node, z) implies #[trigger] repair_index(
        p,
        node,
        z,
    ) < p.sub_chunk_no / p.q && repair_layer(p, node, repair_index(p, node, z)) == z by {
        let zi = z as int;
        let a = zi / w;
        let off = zi % w;
        vstd::arithmetic::div_mod::lemma_fundamental_div_mod(zi, w);
        vstd::arithmetic::div_mod::lemma_mod_bound(zi, w);
        vstd::arithmetic::div_mod::lemma_fundamental_div_mod(a, q);
        vstd::arithmetic::div_mod::lemma_mod_bound(a, q);
        assert(a % q == x);
        let seq = a / q;
        assert(zi == qw * seq + (x * w + off)) by (nonlinear_arith)
            requires
                zi == w * a + off,
                a == q * seq + x,
                qw == q * w,
        ;
        let r = x * w + off;
        assert(0 <= r < qw) by (nonlinear_arith)
            requires
                r == x * w + off,
                0 <= x < q,
                0 <= off < w,
                qw == q * w,
        ;
        assert(a >= 0) by (nonlinear_arith)
            requires
                zi == w * a + off,
                off < w,
                zi >= 0,
                w >= 1,
        ;
        assert(seq >= 0) by (nonlinear_arith)
            requires
                a == q * seq + x,
                x < q,
                a >= 0,
                q >= 1,
        ;
        vstd::arithmetic::div_mod::lemma_fundamental_div_mod_converse(zi, qw, seq, r);
        assert(seq < hi) by (nonlinear_arith)
            requires
                zi == qw * seq + r,
                r >= 0,
                zi < qw * hi,
                qw >= 1,
        ;
        let i = seq * w + off;
        assert(i == repair_index(p, node, z));
        assert(0 <= i < w * hi) by (nonlinear_arith)
            requires
                i == seq * w + off,
                0 <= off < w,
                0 <= seq < hi,
        ;
        assert(i == w * seq + off) by (nonlinear_arith)
            requires
                i == seq * w + off,
        ;
        vstd::arithmetic::div_mod::lemma_fundamental_div_mod_converse(i, w, seq, off);
        assert(x * w + seq * q * w + off == zi) by (nonlinear_arith)
            requires
                zi == qw * seq + (x * w + off),
                qw == q * w,
        ;
    }
}

/// The layers in which the node `lost_node`, given by its internal index,
/// is red, in ascending order: the sub-chunks that a repair of the node
/// reads from each helper.
pub fn get_repair_subchunk_indices(params: &RepairParams, lost_node: usize) -> (r: Result<
    Vec<usize>,
    ClayError,
>)
    requires
        params.wf(),
        lost_node < params.nodes(),
    ensures
        r is Ok,
        r->Ok_0@.len() == params.sub_chunk_no / params.q,
        forall|i: int|
            0 <= i < r->Ok_0@.len() ==> r->Ok_0@[i] == repair_layer(
                *params,
                lost_node as nat,
                i as nat,
            ),
{
    let ghost p = *params;
    proof {
        p.lemma_wf();
        lemma_node_geometry(p, lost_node as nat, 0);
        lemma_repair_layers(p, lost_node as nat);
        lemma_pow_monotonic(p.q as nat, (p.t - 1 - lost_node / p.q) as nat, p.t as nat);
        lemma_pow_monotonic(p.q as nat, (lost_node / p.q) as nat, p.t as nat);
    }
    let y_lost = lost_node / params.q;
    let x_lost = lost_node % params.q;
    let seq_sc_count = match checked_pow(params.q, params.t - 1 - y_lost) {
        Some(v) => v,
        None => {
            return Err(ClayError::Overflow("q^(t-1-y) overflows".to_owned()));
        },
    };
    let num_seq = match checked_pow(params.q, y_lost) {
        Some(v) => v,
        None => {
            return Err(ClayError::Overflow("q^y overflows".to_owned()));
        },
    };
    let ghost w = seq_sc_count as int;
    let ghost beta = (p.sub_chunk_no / p.q) as int;
    let mut result: Vec<usize> = Vec::new();
    let mut seq: usize = 0;
    while seq < num_seq
        invariant
            seq <= num_seq,
            p == *params,
            p.wf(),
            lost_node < p.nodes(),
            w == seq_sc_count,
            w == section_weight(p, lost_node as nat),
            w >= 1,
            x_lost == lost_node % p.q,
            w * num_seq == beta,
            beta == p.sub_chunk_no / p.q,
            result@.len() == seq * w,
            forall|i: int|
                0 <= i < result@.len() ==> result@[i] == repair_layer(p, lost_node as nat, i as nat),
        decreases num_seq - seq,
    {
        proof {
            lemma_repair_layers(p, lost_node as nat);
            assert(seq * w + w <= beta) by (nonlinear_arith)
                requires
                    seq < num_seq,
                    w * num_seq == beta,
                    w >= 1,
            ;
            assert(0 <= seq * w) by (nonlinear_arith)
                requires
                    0 <= seq,
                    0 <= w,
            ;
            // the first layer of this run
            let first = (seq * w) as nat;
            assert(first == w * seq + 0) by (nonlinear_arith)
                requires
                    first == seq * w,
            ;
            vstd::arithmetic::div_mod::lemma_fundamental_div_mod_converse(
                first as int,
                w,
                seq as int,
                0,
            );
            assert(repair_layer(p, lost_node as nat, first) < p.sub_chunk_no);
            assert(repair_layer(p, lost_node as nat, first) == x_lost * w + seq * p.q * w);
            assert(0 <= x_lost * w && 0 <= seq * p.q * w && 0 <= seq * p.q) by (nonlinear_arith)
                requires
                    0 <= x_lost,
                    0 <= w,
                    0 <= seq,
                    0 <= p.q,
            ;
            assert(seq * p.q <= seq * p.q * w) by (nonlinear_arith)
                requires
                    0 <= seq * p.q,
                    w >= 1,
            ;
            let last = (seq * w + w - 1) as nat;
            assert(last == w * seq + (w - 1)) by (nonlinear_arith)
                requires
                    last == seq * w + w - 1,
            ;
            vstd::arithmetic::div_mod::lemma_fundamental_div_mod_converse(
                last as int,
                w,
                seq as int,
                w - 1,
            );
            assert(repair_layer(p, lost_node as nat, last) < p.sub_chunk_no);
        }
        let base = x_lost * seq_sc_count + seq * params.q * seq_sc_count;
        let mut offset: usize = 0;
        while offset < seq_sc_count
            invariant
                offset <= seq_sc_count,
                w == seq_sc_count,
                w >= 1,
                seq < num_seq,
                base == x_lost * w + seq * p.q * w,
                base + w - 1 < p.sub_chunk_no,
                x_lost == lost_node % p.q,
                w == section_weight(p, lost_node as nat),
                result@.len() == seq * w + offset,
                forall|i: int|
                    0 <= i < result@.len() ==> result@[i] == repair_layer(
                        p,
                        lost_node as nat,
                        i as nat,
                    ),
            decreases seq_sc_count - offset,
        {
            proof {
                let i = (seq * w + offset) as nat;
                assert(i == w * seq + offset) by (nonlinear_arith)
                    requires
                        i == seq * w + offset,
                ;
                vstd::arithmetic::div_mod::lemma_fundamental_div_mod_converse(
                    i as int,
                    w,
                    seq as int,
                    offset as int,
                );
            }
            result.push(base + offset);
            offset += 1;
        }
        proof {
            assert((seq + 1) * w == seq * w + w) by (nonlinear_arith);
        }
        seq += 1;
    }
    proof {
        assert(num_seq * w == w * num_seq) by (nonlinear_arith);
    }
    Ok(result)
}

/// The external index of an internal node that is not shortened.
pub open spec fn to_external(p: EncodeParams, node: int) -> int {
    if node < p.k {
        node
    } else {
        node - p.nu
    }
}

/// The node at place `x` of the y-section of `node`.
pub open spec fn sibling(p: EncodeParams, node: nat, x: nat) -> nat {
    ((node / (p.q as nat)) * p.q + x) as nat
}

/// Whether the node at place `x` of the lost node's y-section is a helper
/// that the repair cannot do without: another node than the lost one, not
/// shortened, and available.
pub open spec fn is_sibling_helper(
    p: EncodeParams,
    lost_internal: nat,
    available: Seq<usize>,
    x: nat,
) -> bool {
    &&& sibling(p, lost_internal, x) != lost_internal
    &&& !p.is_shortened(sibling(p, lost_internal, x) as int)
    &&& available.contains(to_external(p, sibling(p, lost_internal, x) as int) as usize)
}

/// The available nodes of the lost node's y-section with x below `upto`,
/// by external index, in the order of their x.
pub open spec fn sibling_helpers(
    p: EncodeParams,
    lost_internal: nat,
    available: Seq<usize>,
    upto: nat,
) -> Seq<usize>
    decreases upto,
{
    if upto == 0 {
        Seq::empty()
    } else {
        let prev = sibling_helpers(p, lost_internal, available, (upto - 1) as nat);
        if is_sibling_helper(p, lost_internal, available, (upto - 1) as nat) {
            prev.push(to_external(p, sibling(p, lost_internal, (upto - 1) as nat) as int) as usize)
        } else {
            prev
        }
    }
}

/// The helpers `h` filled up to `d` with the first `upto` available nodes,
/// in their order, leaving out the lost node and what is listed already.
pub open spec fn fill_helpers(
    h: Seq<usize>,
    available: Seq<usize>,
    lost: usize,
    d: nat,
    upto: nat,
) -> Seq<usize>
    decreases upto,
{
    if upto == 0 {
        h
    } else {
        let prev = fill_helpers(h, available, lost, d, (upto - 1) as nat);
        let node = available[upto - 1];
        if prev.len() < d && !prev.contains(node) && node != lost {
            prev.push(node)
        } else {
            prev
        }
    }
}

/// The helpers that a repair of `lost` reads from: the available nodes of
/// its y-section first, then other available nodes, up to `d` in all.
pub open spec fn chosen_helpers(p: EncodeParams, lost: usize, available: Seq<usize>) -> Seq<usize> {
    fill_helpers(
        sibling_helpers(p, p.to_internal(lost as int) as nat, available, p.q as nat),
        available,
        lost,
        (p.k + p.q - 1) as nat,
        available.len(),
    )
}

/// The layers that a repair of the node with internal index `node` reads.
pub open spec fn repair_layers(p: EncodeParams, node: nat) -> Seq<usize> {
    Seq::new((p.sub_chunk_no / p.q) as nat, |i: int| repair_layer(p, node, i as nat) as usize)
}

/// Filling up keeps what is listed, in its place.
pub proof fn lemma_fill_keeps(h: Seq<usize>, available: Seq<usize>, lost: usize, d: nat, upto: nat)
    ensures
        h.len() <= fill_helpers(h, available, lost, d, upto).len(),
        h.len() <= d ==> fill_helpers(h, available, lost, d, upto).len() <= d,
        forall|i: int| 0 <= i < h.len() ==> fill_helpers(h, available, lost, d, upto)[i] == h[i],
    decreases upto,
{
    if upto > 0 {
        lemma_fill_keeps(h, available, lost, d, (upto - 1) as nat);
    }
}

/// Every available node of the lost node's y-section is listed.
pub proof fn lemma_siblings_listed(
    p: EncodeParams,
    lost_internal: nat,
    available: Seq<usize>,
    upto: nat,
    x: nat,
)
    requires
        x < upto,
        is_sibling_helper(p, lost_internal, available, x),
    ensures
        sibling_helpers(p, lost_internal, available, upto).contains(
            to_external(p, sibling(p, lost_internal, x) as int) as usize,
        ),
        sibling_helpers(p, lost_internal, available, upto).len() <= upto,
    decreases upto,
{
    lemma_siblings_count(p, lost_internal, available, upto);
    let s = sibling_helpers(p, lost_internal, available, upto);
    let prev = sibling_helpers(p, lost_internal, available, (upto - 1) as nat);
    let ext = to_external(p, sibling(p, lost_internal, x) as int) as usize;
    if x == upto - 1 {
        assert(s[s.len() - 1] == ext);
    } else {
        lemma_siblings_listed(p, lost_internal, available, (upto - 1) as nat, x);
        let i = choose|i: int| 0 <= i < prev.len() && prev[i] == ext;
        assert(s[i] == ext);
    }
}

/// There are no more sibling helpers than places looked at.
pub proof fn lemma_siblings_count(
    p: EncodeParams,
    lost_internal: nat,
    available: Seq<usize>,
    upto: nat,
)
    ensures
        sibling_helpers(p, lost_internal, available, upto).len() <= upto,
    decreases upto,
{
    if upto > 0 {
        lemma_siblings_count(p, lost_internal, available, (upto - 1) as nat);
    }
}

/// A copy of a list of indices.
fn copy_indices(v: &Vec<usize>) -> (r: Vec<usize>)
    ensures
        r@ == v@,
{
    let mut r: Vec<usize> = Vec::new();
    let mut i: usize = 0;
    while i < v.len()
        invariant
            i <= v@.len(),
            r@.len() == i,
            forall|j: int| 0 <= j < i ==> r@[j] == v@[j],
        decreases v@.len() - i,
    {
        r.push(v[i]);
        i += 1;
    }
    assert(r@ =~= v@);
    r
}

/// The helper nodes of a list of helpers with their layers.
pub open spec fn helper_nodes(list: Seq<(usize, Vec<usize>)>) -> Seq<usize> {
    Seq::new(list.len(), |i: int| list[i].0)
}

/// Whether `node` is among the helpers listed.
fn is_listed(list: &Vec<(usize, Vec<usize>)>, node: usize) -> (r: bool)
    ensures
        r == helper_nodes(list@).contains(node),
{
    let mut i: usize = 0;
    while i < list.len()
        invariant
            i <= list@.len(),
            forall|j: int| 0 <= j < i ==> helper_nodes(list@)[j] != node,
        decreases list@.len() - i,
    {
        if list[i].0 == node {
            assert(helper_nodes(list@)[i as int] == node);
            return true;
        }
        i += 1;
    }
    false
}

/// What `minimum_to_repair` returns: an error for a lost node that is no
/// chunk or for too few helpers, else the chosen helpers, each with the
/// layers in which the lost node is red.
pub open spec fn plan_post(
    p: EncodeParams,
    lost_node: usize,
    available: Seq<usize>,
    r: Result<Vec<(usize, Vec<usize>)>, ClayError>,
) -> bool {
    &&& lost_node >= p.n ==> (r matches Err(ClayError::InvalidParameters(_)))
    &&& lost_node < p.n && chosen_helpers(p, lost_node, available).len() < p.k + p.q - 1 ==> r
        == Err::<Vec<(usize, Vec<usize>)>, ClayError>(
        ClayError::InsufficientHelpers {
            needed: (p.k + p.q - 1) as usize,
            provided: chosen_helpers(p, lost_node, available).len() as usize,
        },
    )
    &&& lost_node < p.n && chosen_helpers(p, lost_node, available).len() >= p.k + p.q - 1 ==> r
        is Ok
    &&& r matches Ok(list) ==> {
        &&& list@.len() == p.k + p.q - 1
        &&& helper_nodes(list@) == chosen_helpers(p, lost_node, available)
        &&& forall|i: int|
            0 <= i < list@.len() ==> (#[trigger] list@[i]).1@ == repair_layers(
                p,
                p.to_internal(lost_node as int) as nat,
            )
    }
}

/// The plan of a repair: the helper nodes to read from, by external index,
/// each with the layers whose sub-chunks it is to hand over, in the order
/// in which it is to hand them over.
///
/// The available nodes of the lost node's y-section come first; the repair
/// cannot do without them. Other available nodes follow in the order of
/// `available`, until there are `d` helpers.
pub fn minimum_to_repair(params: &RepairParams, lost_node: usize, available: &[usize]) -> (r:
    Result<Vec<(usize, Vec<usize>)>, ClayError>)
    requires
        params.wf(),
    ensures
        plan_post(*params, lost_node, available@, r),
{
    let ghost p = *params;
    proof {
        p.lemma_wf();
    }
    if lost_node >= params.n {
        return Err(ClayError::InvalidParameters("Invalid lost node index".to_owned()));
    }
    let lost_internal = if lost_node < params.k {
        lost_node
    } else {
        lost_node + params.nu
    };
    let repair_sub_chunk_indices = match get_repair_subchunk_indices(params, lost_internal) {
        Ok(v) => v,
        Err(err) => {
            return Err(err);
        },
    };
    proof {
        assert(repair_sub_chunk_indices@ =~= repair_layers(p, lost_internal as nat));
        lemma_node_geometry(p, lost_internal as nat, 0);
    }
    let d = params.k + params.q - 1;
    let mut result: Vec<(usize, Vec<usize>)> = Vec::new();
    let y_section = lost_internal / params.q;
    let mut x: usize = 0;
    while x < params.q
        invariant
            x <= p.q,
            p == *params,
            p.wf(),
            lost_internal < p.nodes(),
            lost_internal == p.to_internal(lost_node as int),
            y_section == lost_internal / p.q,
            y_section < p.t,
            p.nodes() == p.k + p.nu + p.m,
            helper_nodes(result@) == sibling_helpers(p, lost_internal as nat, available@, x as nat),
            forall|i: int|
                0 <= i < result@.len() ==> (#[trigger] result@[i]).1@
                    == repair_sub_chunk_indices@,
        decreases p.q - x,
    {
        proof {
            lemma_node_in_range(p, x as nat, y_section as nat);
        }
        let node = y_section * params.q + x;
        let ghost before = helper_nodes(result@);
        if node != lost_internal {
            if node < params.k {
                if list_contains(available, node) {
                    result.push((node, copy_indices(&repair_sub_chunk_indices)));
                    assert(helper_nodes(result@) =~= before.push(node));
                }
            } else if node >= params.k + params.nu {
                let external_idx = node - params.nu;
                if list_contains(available, external_idx) {
                    result.push((external_idx, copy_indices(&repair_sub_chunk_indices)));
                    assert(helper_nodes(result@) =~= before.push(external_idx));
                }
            }
        }
        x += 1;
    }
    proof {
        lemma_siblings_count(p, lost_internal as nat, available@, p.q as nat);
    }
    let ghost siblings = helper_nodes(result@);
    let mut i: usize = 0;
    while i < available.len()
        invariant
            i <= available@.len(),
            d == p.k + p.q - 1,
            helper_nodes(result@) == fill_helpers(siblings, available@, lost_node, d as nat, i as nat),
            forall|j: int|
                0 <= j < result@.len() ==> (#[trigger] result@[j]).1@
                    == repair_sub_chunk_indices@,
        decreases available@.len() - i,
    {
        let node = available[i];
        let ghost before = helper_nodes(result@);
        if result.len() < d && !is_listed(&result, node) && node != lost_node {
            result.push((node, copy_indices(&repair_sub_chunk_indices)));
            assert(helper_nodes(result@) =~= before.push(node));
        }
        i += 1;
    }
    proof {
        lemma_fill_keeps(siblings, available@, lost_node, d as nat, available@.len());
        assert(helper_nodes(result@).len() == result@.len());
    }
    if result.len() < d {
        return Err(ClayError::InsufficientHelpers { needed: d, provided: result.len() });
    }
    Ok(result)
}

/// Whether a node is aloof in the repair of `lost`: not the lost node, not
/// shortened, and not among the helpers.
pub open spec fn is_aloof(p: EncodeParams, lost: nat, helpers: Set<usize>, node: nat) -> bool {
    &&& node < p.nodes()
    &&& node != lost
    &&& !p.is_shortened(node as int)
    &&& !helpers.contains(to_external(p, node as int) as usize)
}

/// The aloof nodes of a repair, by internal index.
pub open spec fn aloof_set(p: EncodeParams, lost: nat, helpers: Set<usize>) -> Set<usize> {
    Set::new(|i: usize| is_aloof(p, lost, helpers, i as nat))
}

/// The nodes whose uncoupled values every layer of a repair recovers with
/// the scalar code: the y-section of the lost node, and the aloof nodes.
pub open spec fn base_set(p: EncodeParams, lost: nat, helpers: Set<usize>) -> Set<usize> {
    Set::new(
        |i: usize|
            i < p.nodes() && (i as nat / (p.q as nat) == lost / (p.q as nat) || is_aloof(
                p,
                lost,
                helpers,
                i as nat,
            )),
    )
}

/// Whether the node at place `x` of the lost node's y-section should be a
/// helper and is not.
pub open spec fn is_missing_sibling(
    p: EncodeParams,
    lost: nat,
    helpers: Set<usize>,
    x: nat,
) -> bool {
    &&& sibling(p, lost, x) != lost
    &&& !p.is_shortened(sibling(p, lost, x) as int)
    &&& !helpers.contains(to_external(p, sibling(p, lost, x) as int) as usize)
}

/// The rows of helper data by internal node: the data of each helper, a
/// row of zeros for each shortened node, nothing for any other node.
pub open spec fn helper_rows_ok(
    p: EncodeParams,
    data: Map<usize, Vec<u8>>,
    helper_rows: Seq<Option<Vec<u8>>>,
    bytes: nat,
) -> bool {
    &&& helper_rows.len() == p.nodes()
    &&& forall|node: int|
        0 <= node < p.nodes() ==> match #[trigger] helper_rows[node] {
            Some(row) => row@.len() == bytes && if p.is_shortened(node) {
                row@ == Seq::new(bytes, |j: int| 0u8)
            } else {
                data.contains_key(to_external(p, node) as usize) && row@ == data[to_external(
                    p,
                    node,
                ) as usize]@
            },
            None => !p.is_shortened(node) && !data.contains_key(to_external(p, node) as usize),
        }
}

/// What an error about the helper data says: either a helper is no node
/// of the code, or a helper handed over another number of bytes than it
/// was to.
pub open spec fn is_helper_error(
    p: EncodeParams,
    data: Map<usize, Vec<u8>>,
    bytes: nat,
    err: ClayError,
) -> bool {
    match err {
        ClayError::InvalidParameters(_) => exists|i: usize| #[trigger] data.contains_key(i) && i >= p.n,
        ClayError::InsufficientHelperData { helper, expected, actual } => {
            &&& data.contains_key(helper)
            &&& expected == bytes
            &&& actual == data[helper]@.len()
            &&& actual != expected
        },
        _ => false,
    }
}

/// Whether every helper is a node of the code and has handed over `bytes`
/// bytes.
pub open spec fn helpers_ok(p: EncodeParams, data: Map<usize, Vec<u8>>, bytes: nat) -> bool {
    forall|i: usize| #[trigger] data.contains_key(i) ==> i < p.n && data[i]@.len() == bytes
}

/// Checks the helper data and lays it out by internal node, with a row of
/// zeros for each shortened node.
pub fn collect_helpers(
    params: &RepairParams,
    helper_data: &HashMap<usize, Vec<u8>>,
    expected_helper_bytes: usize,
) -> (r: Result<Vec<Option<Vec<u8>>>, ClayError>)
    requires
        params.wf(),
    ensures
        helpers_ok(*params, helper_data@, expected_helper_bytes as nat) ==> r is Ok,
        !helpers_ok(*params, helper_data@, expected_helper_bytes as nat) ==> r is Err
            && is_helper_error(*params, helper_data@, expected_helper_bytes as nat, r->Err_0),
        r matches Ok(helper_rows) ==> helper_rows_ok(
            *params,
            helper_data@,
            helper_rows@,
            expected_helper_bytes as nat,
        ),
{
    let ghost p = *params;
    let ghost data = helper_data@;
    let ghost bytes = expected_helper_bytes as nat;
    proof {
        p.lemma_wf();
    }
    let total_nodes = params.q * params.t;
    let mut helper_rows: Vec<Option<Vec<u8>>> = Vec::new();
    let mut i: usize = 0;
    while i < total_nodes
        invariant
            i <= total_nodes,
            helper_rows@.len() == i,
            forall|node: int| 0 <= node < i ==> (#[trigger] helper_rows@[node]) is None,
        decreases total_nodes - i,
    {
        helper_rows.push(None);
        i += 1;
    }
    let keys = key_list(helper_data);
    proof {
        assert forall|j: int| 0 <= j < keys@.len() implies data.contains_key(#[trigger] keys@[j]) by {
            assert(keys@.to_set().contains(keys@[j]));
        }
        assert forall|k: usize| data.contains_key(k) implies keys@.contains(k) by {
            assert(keys@.to_set().contains(k));
        }
    }
    let mut i: usize = 0;
    while i < keys.len()
        invariant
            i <= keys@.len(),
            p == *params,
            p.wf(),
            p.nodes() == p.k + p.nu + p.m,
            p.n == p.k + p.m,
            data == helper_data@,
            bytes == expected_helper_bytes,
            total_nodes == p.nodes(),
            helper_rows@.len() == total_nodes,
            forall|j: int| 0 <= j < keys@.len() ==> data.contains_key(#[trigger] keys@[j]),
            forall|j: int|
                0 <= j < i ==> (#[trigger] keys@[j]) < p.n && data[keys@[j]]@.len() == bytes,
            forall|j: int|
                0 <= j < i ==> (#[trigger] helper_rows@[p.to_internal(keys@[j] as int)]) is Some,
            forall|node: int|
                0 <= node < total_nodes ==> match #[trigger] helper_rows@[node] {
                    Some(row) => !p.is_shortened(node) && row@.len() == bytes && data.contains_key(
                        to_external(p, node) as usize,
                    ) && row@ == data[to_external(p, node) as usize]@,
                    None => true,
                },
        decreases keys@.len() - i,
    {
        let ext_idx = keys[i];
        if ext_idx >= params.n {
            return Err(ClayError::InvalidParameters("Helper index out of range".to_owned()));
        }
        let internal = internal_index(params, ext_idx);
        match helper_data.get(&ext_idx) {
            Some(data) => {
                if data.len() != expected_helper_bytes {
                    return Err(
                        ClayError::InsufficientHelperData {
                            helper: ext_idx,
                            expected: expected_helper_bytes,
                            actual: data.len(),
                        },
                    );
                }
                let row = copy_bytes(data);
                helper_rows[internal] = Some(row);
            },
            None => {},
        }
        i += 1;
    }
    proof {
        assert forall|k: usize| #[trigger] data.contains_key(k) implies k < p.n && data[k]@.len()
            == bytes && helper_rows@[p.to_internal(k as int)] is Some by {
            assert(keys@.contains(k));
            let j = choose|j: int| 0 <= j < keys@.len() && keys@[j] == k;
            assert(keys@[j] < p.n);
            assert(helper_rows@[p.to_internal(keys@[j] as int)] is Some);
        }
    }
    let mut i: usize = params.k;
    while i < params.k + params.nu
        invariant
            p.k <= i <= p.k + p.nu,
            p == *params,
            p.wf(),
            p.nodes() == p.k + p.nu + p.m,
            bytes == expected_helper_bytes,
            total_nodes == p.nodes(),
            helper_rows@.len() == total_nodes,
            forall|k: usize|
                #[trigger] data.contains_key(k) ==> k < p.n && helper_rows@[p.to_internal(
                    k as int,
                )] is Some,
            forall|node: int|
                0 <= node < total_nodes ==> match #[trigger] helper_rows@[node] {
                    Some(row) => row@.len() == bytes && if p.is_shortened(node) {
                        row@ == Seq::new(bytes, |j: int| 0u8)
                    } else {
                        data.contains_key(to_external(p, node) as usize) && row@
                            == data[to_external(p, node) as usize]@
                    },
                    None => true,
                },
            forall|node: int| p.k <= node < i ==> (#[trigger] helper_rows@[node]) is Some,
        decreases p.k + p.nu - i,
    {
        let zero_data = zero_row(expected_helper_bytes);
        helper_rows[i] = Some(zero_data);
        i += 1;
    }
    proof {
        assert forall|node: int| 0 <= node < p.nodes() && (#[trigger] helper_rows@[node])
            is None implies !p.is_shortened(node) && !data.contains_key(
            to_external(p, node) as usize,
        ) by {
            if !p.is_shortened(node) && data.contains_key(to_external(p, node) as usize) {
                let k = to_external(p, node) as usize;
                assert(p.to_internal(k as int) == node);
            }
        }
    }
    Ok(helper_rows)
}

/// The aloof nodes of a repair: the nodes without a row of helper data,
/// the lost node left out.
pub fn find_aloof(
    params: &RepairParams,
    lost_internal: usize,
    helper_rows: &Vec<Option<Vec<u8>>>,
    Ghost(data): Ghost<Map<usize, Vec<u8>>>,
    Ghost(bytes): Ghost<nat>,
) -> (aloof: BTreeSet<usize>)
    requires
        params.wf(),
        lost_internal < params.nodes(),
        helper_rows_ok(*params, data, helper_rows@, bytes),
    ensures
        aloof@ == aloof_set(*params, lost_internal as nat, data.dom()),
{
    let ghost p = *params;
    proof {
        p.lemma_wf();
    }
    let total_nodes = params.q * params.t;
    let mut aloof: BTreeSet<usize> = BTreeSet::new();
    let mut i: usize = 0;
    while i < total_nodes
        invariant
            i <= total_nodes,
            total_nodes == p.nodes(),
            p == *params,
            helper_rows_ok(p, data, helper_rows@, bytes),
            forall|node: usize|
                aloof@.contains(node) <==> node < i && is_aloof(
                    p,
                    lost_internal as nat,
                    data.dom(),
                    node as nat,
                ),
        decreases total_nodes - i,
    {
        if i != lost_internal && helper_rows[i].is_none() {
            aloof.insert(i);
        }
        i += 1;
    }
    assert(aloof@ =~= aloof_set(p, lost_internal as nat, data.dom()));
    aloof
}

/// The nodes that every layer of a repair recovers with the scalar code:
/// the y-section of the lost node and the aloof nodes.
pub fn find_base(
    params: &RepairParams,
    lost_internal: usize,
    aloof: &BTreeSet<usize>,
    Ghost(helpers): Ghost<Set<usize>>,
) -> (base: BTreeSet<usize>)
    requires
        params.wf(),
        lost_internal < params.nodes(),
        aloof@ == aloof_set(*params, lost_internal as nat, helpers),
    ensures
        base@ == base_set(*params, lost_internal as nat, helpers),
{
    let ghost p = *params;
    proof {
        p.lemma_wf();
    }
    let total_nodes = params.q * params.t;
    let lost_y = lost_internal / params.q;
    let mut base: BTreeSet<usize> = BTreeSet::new();
    let mut i: usize = 0;
    while i < total_nodes
        invariant
            i <= total_nodes,
            total_nodes == p.nodes(),
            p == *params,
            p.q >= 2,
            lost_y == lost_internal / p.q,
            aloof@ == aloof_set(p, lost_internal as nat, helpers),
            forall|node: usize|
                base@.contains(node) <==> node < i && base_set(
                    p,
                    lost_internal as nat,
                    helpers,
                ).contains(node),
        decreases total_nodes - i,
    {
        if i / params.q == lost_y || aloof.contains(&i) {
            base.insert(i);
        }
        i += 1;
    }
    assert(base@ =~= base_set(p, lost_internal as nat, helpers));
    base
}

/// The place of layer `z` among the layers that the repair of `lost`
/// reads, if it is one of them.
pub fn plane_index(params: &RepairParams, lost_internal: usize, z: usize) -> (r: Option<usize>)
    requires
        params.wf(),
        lost_internal < params.nodes(),
        z < params.sub_chunk_no,
    ensures
        r is Some <==> params.is_red(lost_internal as nat, z as nat),
        r matches Some(i) ==> i == repair_index(*params, lost_internal as nat, z as nat) && i
            < params.sub_chunk_no / params.q,
{
    let ghost p = *params;
    proof {
        p.lemma_wf();
        lemma_node_geometry(p, lost_internal as nat, z as nat);
        lemma_repair_layers(p, lost_internal as nat);
        lemma_pow_monotonic(p.q as nat, (p.t - 1 - lost_internal / p.q) as nat, p.t as nat);
        lemma_pow_step(p.q as nat, (p.t - 1 - lost_internal / p.q) as nat);
    }
    let y_lost = lost_internal / params.q;
    let x_lost = lost_internal % params.q;
    let weight = power(params.q, params.t - 1 - y_lost);
    if (z / weight) % params.q == x_lost {
        proof {
            assert(p.is_red(lost_internal as nat, z as nat));
            let ri = repair_index(p, lost_internal as nat, z as nat);
            assert(ri < p.sub_chunk_no / p.q);
            let w = weight as int;
            assert(w == section_weight(p, lost_internal as nat));
            assert(p.q * w > 0) by (nonlinear_arith)
                requires
                    p.q >= 2,
                    w >= 1,
            ;
            let hi = pow(p.q as int, y_lost as nat);
            vstd::arithmetic::power::lemma_pow_positive(p.q as int, y_lost as nat);
            assert(p.q * w <= p.sub_chunk_no) by (nonlinear_arith)
                requires
                    p.q * w * hi == p.sub_chunk_no,
                    hi >= 1,
                    p.q * w >= 0,
            ;
            vstd::arithmetic::div_mod::lemma_div_pos_is_pos(z as int, p.q * w);
            assert(0 <= (z as int / (p.q * w)) * w) by (nonlinear_arith)
                requires
                    0 <= z as int / (p.q * w),
                    0 <= w,
            ;
            assert(ri == (z as int / (p.q * w)) * w + z as int % w);
        }
        Some((z / (params.q * weight)) * weight + z % weight)
    } else {
        None
    }
}

/// The sub-chunk that a helper row holds for the layer at place `idx` of
/// the plan.
pub open spec fn helper_cell(
    helper_rows: Seq<Option<Vec<u8>>>,
    node: int,
    idx: int,
    size: nat,
) -> Seq<u8> {
    crate::layout::row_cell(helper_rows[node]->0@, idx, size)
}

/// Copies the sub-chunk for the layer at place `idx` out of the row of a
/// helper.
pub fn get_helper_cell(
    params: &RepairParams,
    helper_rows: &Vec<Option<Vec<u8>>>,
    node: usize,
    idx: usize,
    sub_chunk_size: usize,
) -> (out: Vec<u8>)
    requires
        node < helper_rows@.len(),
        helper_rows@[node as int] is Some,
        helper_rows@[node as int]->0@.len() == (params.sub_chunk_no / params.q) * sub_chunk_size,
        idx < params.sub_chunk_no / params.q,
    ensures
        out@ == helper_cell(helper_rows@, node as int, idx as int, sub_chunk_size as nat),
        out@.len() == sub_chunk_size,
{
    proof {
        crate::layout::lemma_cell_bounds(
            idx as nat,
            (params.sub_chunk_no / params.q) as nat,
            sub_chunk_size as nat,
        );
    }
    match &helper_rows[node] {
        Some(row) => load(row, idx, sub_chunk_size),
        None => Vec::new(),
    }
}

/// Whether the layer at place `i` of the plan is complete when the repair,
/// working on the layers of order `s`, has come to place `ic`.
pub open spec fn repair_complete(
    p: EncodeParams,
    lost: nat,
    aloof: Set<usize>,
    s: nat,
    ic: nat,
    i: nat,
) -> bool {
    let order = score(p, aloof, repair_layer(p, lost, i)) + 1;
    order < s || (order == s && i < ic)
}

/// What the flags hold during a repair: in every complete layer the
/// uncoupled value of every aloof node is known.
pub open spec fn repair_up_to_date(
    p: EncodeParams,
    lost: nat,
    aloof: Set<usize>,
    k: Seq<Seq<bool>>,
    s: nat,
    ic: nat,
) -> bool {
    forall|node: int, i: int|
        0 <= node < p.nodes() && 0 <= i < p.sub_chunk_no / p.q && aloof.contains(node as usize)
            && repair_complete(p, lost, aloof, s, ic, i as nat) ==> #[trigger] known(
            k,
            node,
            repair_layer(p, lost, i as nat) as int,
        )
}

/// With every node of the lost node's y-section a helper or shortened, the
/// nodes are what the repair takes them for.
pub proof fn lemma_roles(
    p: EncodeParams,
    lost: nat,
    data: Map<usize, Vec<u8>>,
    h: Seq<Option<Vec<u8>>>,
    bytes: nat,
)
    requires
        p.wf(),
        lost < p.nodes(),
        helper_rows_ok(p, data, h, bytes),
        forall|x: nat| x < p.q ==> !#[trigger] is_missing_sibling(p, lost, data.dom(), x),
    ensures
        roles_ok(p, lost, aloof_set(p, lost, data.dom()), base_set(p, lost, data.dom()), h),
{
    p.lemma_wf();
    let aloof = aloof_set(p, lost, data.dom());
    let base = base_set(p, lost, data.dom());
    assert forall|n: int| 0 <= n < p.nodes() && n != lost implies (aloof.contains(n as usize) <==> (
    #[trigger] h[n]) is None) by {}
    assert forall|n: usize| n < p.nodes() && #[trigger] aloof.contains(n) implies n as nat / (
    p.q as nat) != lost / (p.q as nat) by {
        if n as nat / (p.q as nat) == lost / (p.q as nat) {
            lemma_node_geometry(p, n as nat, 0);
            let x = n as nat % (p.q as nat);
            assert(sibling(p, lost, x) == n);
            assert(is_missing_sibling(p, lost, data.dom(), x));
        }
    }
}

/// Phase A of a repair for the layer at place `idx` of the plan: computes
/// the uncoupled values of the helpers outside the lost node's y-section.
/// A red vertex has its coupled value; a vertex with an aloof companion is
/// uncoupled with the companion's uncoupled value, known from a layer of
/// lower order; a vertex whose companion is a helper is uncoupled together
/// with it.
pub fn uncouple_helpers(
    params: &RepairParams,
    lost_internal: usize,
    idx: usize,
    z: usize,
    helper_rows: &Vec<Option<Vec<u8>>>,
    aloof_nodes: &BTreeSet<usize>,
    base_erasures: &BTreeSet<usize>,
    u_buf: &mut Vec<Vec<u8>>,
    u_computed: &mut Vec<Vec<bool>>,
    sub_chunk_size: usize,
    Ghost(data): Ghost<Map<usize, Vec<u8>>>,
) -> (layer_erasures: BTreeSet<usize>)
    requires
        params.wf(),
        lost_internal < params.nodes(),
        idx < params.sub_chunk_no / params.q,
        z == repair_layer(*params, lost_internal as nat, idx as nat),
        helper_rows_ok(
            *params,
            data,
            helper_rows@,
            ((params.sub_chunk_no / params.q) * sub_chunk_size) as nat,
        ),
        aloof_nodes@ == aloof_set(*params, lost_internal as nat, data.dom()),
        base_erasures@ == base_set(*params, lost_internal as nat, data.dom()),
        buffer_ok(*params, sub_chunk_size as nat, old(u_buf)),
        flags_ok(*params, old(u_computed)),
        repair_up_to_date(
            *params,
            lost_internal as nat,
            aloof_nodes@,
            flags(old(u_computed)),
            score(*params, aloof_nodes@, z as nat) + 1,
            idx as nat,
        ),
        roles_ok(*params, lost_internal as nat, aloof_nodes@, base_erasures@, helper_rows@),
        helper_known(
            *params,
            sub_chunk_size as nat,
            lost_internal as nat,
            aloof_nodes@,
            base_erasures@,
            helper_rows@,
            rows(old(u_buf)),
            flags(old(u_computed)),
        ),
        repair_drew(
            *params,
            lost_internal as nat,
            aloof_nodes@,
            base_erasures@,
            flags(old(u_computed)),
            score(*params, aloof_nodes@, z as nat) + 1,
            idx as nat,
        ),
        repair_settled(
            *params,
            sub_chunk_size as nat,
            lost_internal as nat,
            aloof_nodes@,
            base_erasures@,
            rows(old(u_buf)),
            flags(old(u_computed)),
            score(*params, aloof_nodes@, z as nat) + 1,
            idx as nat,
        ),
    ensures
        buffer_ok(*params, sub_chunk_size as nat, final(u_buf)),
        flags_ok(*params, final(u_computed)),
        grown(*params, flags(old(u_computed)), flags(final(u_computed))),
        layer_erasures@ == base_erasures@,
        helper_known(
            *params,
            sub_chunk_size as nat,
            lost_internal as nat,
            aloof_nodes@,
            base_erasures@,
            helper_rows@,
            rows(final(u_buf)),
            flags(final(u_computed)),
        ),
        repair_drew(
            *params,
            lost_internal as nat,
            aloof_nodes@,
            base_erasures@,
            flags(final(u_computed)),
            score(*params, aloof_nodes@, z as nat) + 1,
            idx as nat,
        ),
        complete_same(
            *params,
            sub_chunk_size as nat,
            lost_internal as nat,
            aloof_nodes@,
            rows(old(u_buf)),
            rows(final(u_buf)),
            score(*params, aloof_nodes@, z as nat) + 1,
            idx as nat,
        ),
        forall|n: int|
            0 <= n < params.nodes() && !base_erasures@.contains(n as usize) ==> #[trigger] known(
                flags(final(u_computed)),
                n,
                z as int,
            ),
        forall|n: int, l: int|
            0 <= n < params.nodes() && 0 <= l < params.sub_chunk_no && base_erasures@.contains(
                n as usize,
            ) ==> #[trigger] cell(rows(final(u_buf)), n, l, sub_chunk_size as nat) == cell(
                rows(old(u_buf)),
                n,
                l,
                sub_chunk_size as nat,
            ),
        forall|n: int, l: int|
            0 <= n < params.nodes() && 0 <= l < params.sub_chunk_no && #[trigger] known(
                flags(final(u_computed)),
                n,
                l,
            ) && base_erasures@.contains(n as usize) ==> known(flags(old(u_computed)), n, l),
{
    let ghost p = *params;
    let ghost lost = lost_internal as nat;
    let ghost aloof = aloof_nodes@;
    let ghost base = base_erasures@;
    let ghost size = sub_chunk_size as nat;
    let ghost k0 = flags(u_computed);
    let ghost u0 = rows(u_buf);
    let ghost h = helper_rows@;
    let ghost s = score(p, aloof, z as nat) + 1;
    let ghost beta = (p.sub_chunk_no / p.q) as nat;
    proof {
        p.lemma_wf();
        lemma_repair_layers(p, lost);
        lemma_node_geometry(p, lost, z as nat);
    }
    let z_vec = get_plane_vector(z, params.t, params.q);
    let mut layer_erasures = base_erasures.clone();
    let total_nodes = params.q * params.t;
    let mut node_xy: usize = 0;
    while node_xy < total_nodes
        invariant
            node_xy <= total_nodes,
            total_nodes == p.nodes(),
            p == *params,
            p.wf(),
            lost == lost_internal,
            lost < p.nodes(),
            idx < beta,
            beta == p.sub_chunk_no / p.q,
            z == repair_layer(p, lost, idx as nat),
            z < p.sub_chunk_no,
            p.is_red(lost, z as nat),
            size == sub_chunk_size,
            aloof == aloof_nodes@,
            base == base_erasures@,
            aloof == aloof_set(p, lost, data.dom()),
            base == base_set(p, lost, data.dom()),
            layer_erasures@ == base,
            helper_rows_ok(p, data, helper_rows@, (beta * size) as nat),
            z_vec@.len() == p.t,
            forall|y: int| 0 <= y < p.t ==> z_vec@[y] == p.plane_digit(z as nat, y as nat),
            buffer_ok(p, size, u_buf),
            flags_ok(p, u_computed),
            grown(p, k0, flags(u_computed)),
            repair_up_to_date(p, lost, aloof, k0, score(p, aloof, z as nat) + 1, idx as nat),
            h == helper_rows@,
            s == score(p, aloof, z as nat) + 1,
            roles_ok(p, lost, aloof, base, h),
            helper_known(p, size, lost, aloof, base, h, rows(u_buf), flags(u_computed)),
            repair_drew(p, lost, aloof, base, flags(u_computed), s, idx as nat),
            repair_settled(p, size, lost, aloof, base, u0, k0, s, idx as nat),
            complete_same(p, size, lost, aloof, u0, rows(u_buf), s, idx as nat),
            forall|n: int|
                0 <= n < node_xy && !base.contains(n as usize) ==> #[trigger] known(
                    flags(u_computed),
                    n,
                    z as int,
                ),
            forall|n: int, l: int|
                0 <= n < p.nodes() && 0 <= l < p.sub_chunk_no && base.contains(n as usize)
                    ==> #[trigger] cell(rows(u_buf), n, l, size) == cell(u0, n, l, size),
            forall|n: int, l: int|
                0 <= n < p.nodes() && 0 <= l < p.sub_chunk_no && #[trigger] known(
                    flags(u_computed),
                    n,
                    l,
                ) && base.contains(n as usize) ==> known(k0, n, l),
        decreases total_nodes - node_xy,
    {
        let ghost k_before = flags(u_computed);
        let ghost u_before = rows(u_buf);
        if !base_erasures.contains(&node_xy) {
            let x = node_xy % params.q;
            let y = node_xy / params.q;
            proof {
                lemma_node_geometry(p, node_xy as nat, z as nat);
                lemma_node_geometry(p, lost, z as nat);
                lemma_repair_layers(p, lost);
                lemma_companion_geometry(p, node_xy as nat, z as nat);
                crate::digits::lemma_digit_bound(z as nat, p.q as nat, (p.t - 1 - y) as nat);
                lemma_node_in_range(p, z_vec@[y as int] as nat, y as nat);
                lemma_node_in_range(p, x as nat, y as nat);
                assert(helper_rows@[node_xy as int] is Some);
            }
            let z_y = z_vec[y];
            let z_sw = get_companion_layer(params, z, x, y, z_y);
            let node_sw = y * params.q + z_y;
            proof {
                assert(node_sw == p.companion_node(node_xy as nat, z as nat));
                assert(z_sw == p.companion_layer(node_xy as nat, z as nat));
                assert(node_sw as nat / (p.q as nat) != lost / (p.q as nat));
                assert(red_node(p, z_sw as nat, lost / (p.q as nat)) == red_node(
                    p,
                    z as nat,
                    lost / (p.q as nat),
                ));
                lemma_node_geometry(p, lost, z_sw as nat);
                assert(p.is_red(lost, z_sw as nat));
            }
            proof {
                assert(repair_index(p, lost, z as nat) == idx);
                assert(base.contains(node_sw) <==> node_sw as nat / (p.q as nat) == lost / (
                p.q as nat) || aloof.contains(node_sw));
            }
            if z_y == x {
                let c = get_helper_cell(params, helper_rows, node_xy, idx, sub_chunk_size);
                put_cell(params, u_buf, node_xy, z, sub_chunk_size, &c);
                mark_known(params, u_computed, node_xy, z);
                proof {
                    assert(helper_uncoupled_ok(
                        p,
                        size,
                        lost,
                        aloof,
                        h,
                        rows(u_buf),
                        node_xy as int,
                        z as int,
                    ));
                    lemma_repair_step(
                        p,
                        size,
                        lost,
                        aloof,
                        base,
                        h,
                        u_before,
                        rows(u_buf),
                        k_before,
                        flags(u_computed),
                        s,
                        idx as nat,
                        node_xy as int,
                        z as int,
                        false,
                    );
                }
            } else if aloof_nodes.contains(&node_sw) {
                proof {
                    lemma_score_of_companion(p, aloof, node_xy as nat, z as nat);
                    let i2 = repair_index(p, lost, z_sw as nat);
                    assert(repair_layer(p, lost, i2) == z_sw);
                    assert(repair_complete(
                        p,
                        lost,
                        aloof,
                        score(p, aloof, z as nat) + 1,
                        idx as nat,
                        i2,
                    ));
                    assert(known(k0, node_sw as int, repair_layer(p, lost, i2) as int));
                    assert(known(flags(u_computed), node_sw as int, z_sw as int));
                }
                if u_computed[node_sw][z_sw] {
                    let c_xy = get_helper_cell(params, helper_rows, node_xy, idx, sub_chunk_size);
                    let u_sw = get_cell(params, u_buf, node_sw, z_sw, sub_chunk_size);
                    let u_xy = compute_u_from_c_and_ustar(c_xy.as_slice(), u_sw.as_slice());
                    put_cell(params, u_buf, node_xy, z, sub_chunk_size, &u_xy);
                    mark_known(params, u_computed, node_xy, z);
                    proof {
                        assert(cell(rows(u_buf), node_sw as int, z_sw as int, size) == cell(
                            u_before,
                            node_sw as int,
                            z_sw as int,
                            size,
                        ));
                        assert(helper_uncoupled_ok(
                            p,
                            size,
                            lost,
                            aloof,
                            h,
                            rows(u_buf),
                            node_xy as int,
                            z as int,
                        ));
                        lemma_repair_step(
                            p,
                            size,
                            lost,
                            aloof,
                            base,
                            h,
                            u_before,
                            rows(u_buf),
                            k_before,
                            flags(u_computed),
                            s,
                            idx as nat,
                            node_xy as int,
                            z as int,
                            false,
                        );
                    }
                } else {
                    layer_erasures.insert(node_xy);
                }
            } else {
                proof {
                    assert(helper_rows@[node_sw as int] is Some);
                }
                match plane_index(params, lost_internal, z_sw) {
                    Some(sw_idx) => {
                        let c_xy = get_helper_cell(
                            params,
                            helper_rows,
                            node_xy,
                            idx,
                            sub_chunk_size,
                        );
                        let c_sw = get_helper_cell(
                            params,
                            helper_rows,
                            node_sw,
                            sw_idx,
                            sub_chunk_size,
                        );
                        let (u_xy, u_sw_val) = prt_compute_both_oriented(
                            c_xy.as_slice(),
                            c_sw.as_slice(),
                            x < z_y,
                        );
                        put_cell(params, u_buf, node_xy, z, sub_chunk_size, &u_xy);
                        let ghost u_mid = rows(u_buf);
                        put_cell(params, u_buf, node_sw, z_sw, sub_chunk_size, &u_sw_val);
                        mark_known(params, u_computed, node_xy, z);
                        mark_known(params, u_computed, node_sw, z_sw);
                        proof {
                            let u_after = rows(u_buf);
                            lemma_node_geometry(p, node_sw as nat, z_sw as nat);
                            assert(sw_idx == repair_index(p, lost, z_sw as nat));
                            assert(cell(u_after, node_xy as int, z as int, size) == cell(
                                u_mid,
                                node_xy as int,
                                z as int,
                                size,
                            ));
                            assert(helper_uncoupled_ok(
                                p,
                                size,
                                lost,
                                aloof,
                                h,
                                u_after,
                                node_xy as int,
                                z as int,
                            ));
                            assert(helper_uncoupled_ok(
                                p,
                                size,
                                lost,
                                aloof,
                                h,
                                u_after,
                                node_sw as int,
                                z_sw as int,
                            ));
                            assert forall|n: int, l: int|
                                0 <= n < p.nodes() && 0 <= l < p.sub_chunk_no && !(n == node_xy && l
                                    == z) && !(n == node_sw && l == z_sw) implies #[trigger] cell(
                                u_after,
                                n,
                                l,
                                size,
                            ) == cell(u_before, n, l, size) by {
                                assert(cell(u_after, n, l, size) == cell(u_mid, n, l, size));
                                assert(cell(u_mid, n, l, size) == cell(u_before, n, l, size));
                            }
                            lemma_repair_step(
                                p,
                                size,
                                lost,
                                aloof,
                                base,
                                h,
                                u_before,
                                u_after,
                                k_before,
                                flags(u_computed),
                                s,
                                idx as nat,
                                node_xy as int,
                                z as int,
                                true,
                            );
                            // a companion in a complete layer is written with
                            // the value that it has
                            let i2 = repair_index(p, lost, z_sw as nat);
                            if repair_complete(p, lost, aloof, s, idx as nat, i2) {
                                assert(layer_determined(
                                    p,
                                    size,
                                    base,
                                    u0,
                                    repair_layer(p, lost, i2) as int,
                                ));
                                assert(known(k0, node_sw as int, repair_layer(p, lost, i2) as int));
                                assert(known(k_before, node_sw as int, z_sw as int));
                                assert(helper_uncoupled_ok(
                                    p,
                                    size,
                                    lost,
                                    aloof,
                                    h,
                                    u_before,
                                    node_sw as int,
                                    z_sw as int,
                                ));
                                assert(cell(u_after, node_sw as int, z_sw as int, size) == cell(
                                    u_before,
                                    node_sw as int,
                                    z_sw as int,
                                    size,
                                ));
                            }
                        }
                    },
                    None => {},
                }
            }
        }
        proof {
            assert(grown(p, k_before, flags(u_computed)));
            let u_after = rows(u_buf);
            assert forall|n: int, i: int|
                0 <= n < p.nodes() && 0 <= i < p.sub_chunk_no / p.q && repair_complete(
                    p,
                    lost,
                    aloof,
                    s,
                    idx as nat,
                    i as nat,
                ) implies #[trigger] cell(u_after, n, repair_layer(p, lost, i as nat) as int, size)
                == cell(u0, n, repair_layer(p, lost, i as nat) as int, size) by {
                lemma_repair_layers(p, lost);
                let l = repair_layer(p, lost, i as nat) as int;
                assert(cell(u_before, n, l, size) == cell(u0, n, l, size));
                assert(repair_index(p, lost, l as nat) == i);
                assert(cell(u_after, n, l, size) == cell(u_before, n, l, size));
            }
        }
        node_xy += 1;
    }
    layer_erasures
}

/// Phase C of a repair for the layer at place `idx` of the plan: writes
/// the sub-chunks of the lost node that this layer gives. The lost node is
/// red in the layer, so its sub-chunk there is its uncoupled value. Every
/// other node of its y-section is coupled with the lost node in another
/// layer, and gives the lost node's sub-chunk of that layer.
/// The layer in which the node at place `x` of the lost node's y-section
/// is coupled with the lost node, seen from a layer `z` in which the lost
/// node is red: `z` with the entry of that y-section replaced by `x`. It
/// is a layer of the code, its entry for the y-section is `x`, and from it
/// the way back to `z` is by the lost node.
pub proof fn lemma_sibling_layer(p: EncodeParams, lost: nat, z: nat, x: nat)
    requires
        p.wf(),
        lost < p.nodes(),
        z < p.sub_chunk_no,
        p.is_red(lost, z),
        x < p.q,
    ensures
        sibling(p, lost, x) < p.nodes(),
        p.companion_layer(sibling(p, lost, x), z) < p.sub_chunk_no,
        p.plane_digit(p.companion_layer(sibling(p, lost, x), z), lost / (p.q as nat)) == x,
        p.companion_layer(lost, p.companion_layer(sibling(p, lost, x), z)) == z,
        p.companion_node(sibling(p, lost, x), z) == lost,
        sibling(p, lost, x) != lost ==> p.companion_layer(sibling(p, lost, x), z) != z,
{
    p.lemma_wf();
    lemma_node_geometry(p, lost, z);
    let y = lost / (p.q as nat);
    lemma_node_in_range(p, x, y);
    let s = sibling(p, lost, x);
    lemma_node_geometry(p, s, z);
    lemma_companion_geometry(p, s, z);
    let l = p.companion_layer(s, z);
    lemma_node_geometry(p, lost, l);
    lemma_companion_geometry(p, lost, l);
}

pub fn recover_lost(
    params: &RepairParams,
    lost_internal: usize,
    idx: usize,
    z: usize,
    helper_rows: &Vec<Option<Vec<u8>>>,
    u_buf: &Vec<Vec<u8>>,
    sub_chunk_size: usize,
    recovered: &mut Vec<u8>,
)
    requires
        params.wf(),
        lost_internal < params.nodes(),
        idx < params.sub_chunk_no / params.q,
        z == repair_layer(*params, lost_internal as nat, idx as nat),
        helper_rows@.len() == params.nodes(),
        forall|node: int|
            0 <= node < params.nodes() && (#[trigger] helper_rows@[node]) is Some
                ==> helper_rows@[node]->0@.len() == (params.sub_chunk_no / params.q)
                * sub_chunk_size,
        buffer_ok(*params, sub_chunk_size as nat, u_buf),
        old(recovered)@.len() == params.sub_chunk_no * sub_chunk_size,
    ensures
        final(recovered)@.len() == old(recovered)@.len(),
        lost_ok(
            *params,
            sub_chunk_size as nat,
            lost_internal as nat,
            helper_rows@,
            rows(u_buf),
            final(recovered)@,
            z as int,
        ),
        forall|l: int|
            0 <= l < params.sub_chunk_no && params.companion_layer(lost_internal as nat, l as nat)
                != z ==> #[trigger] row_cell(final(recovered)@, l, sub_chunk_size as nat)
                == row_cell(old(recovered)@, l, sub_chunk_size as nat),
{
    let ghost p = *params;
    let ghost lost = lost_internal as nat;
    let ghost size = sub_chunk_size as nat;
    proof {
        p.lemma_wf();
        lemma_repair_layers(p, lost);
        lemma_node_geometry(p, lost, z as nat);
    }
    let z_vec = get_plane_vector(z, params.t, params.q);
    let y = lost_internal / params.q;
    let z_y = z_vec[y];
    let ghost h = helper_rows@;
    let ghost u = rows(u_buf);
    let ghost r0 = recovered@;
    proof {
        lemma_companion_geometry(p, lost, z as nat);
        assert(z_y == lost % (p.q as nat));
    }
    let mut x: usize = 0;
    while x < params.q
        invariant
            x <= p.q,
            p == *params,
            p.wf(),
            lost == lost_internal,
            lost < p.nodes(),
            y == lost / (p.q as nat),
            y < p.t,
            z < p.sub_chunk_no,
            z_y == p.plane_digit(z as nat, y as nat),
            z_y < p.q,
            idx < p.sub_chunk_no / p.q,
            size == sub_chunk_size,
            helper_rows@.len() == p.nodes(),
            forall|node: int|
                0 <= node < p.nodes() && (#[trigger] helper_rows@[node]) is Some
                    ==> helper_rows@[node]->0@.len() == (p.sub_chunk_no / p.q) * size,
            buffer_ok(p, size, u_buf),
            recovered@.len() == p.sub_chunk_no * size,
            h == helper_rows@,
            u == rows(u_buf),
            p.is_red(lost, z as nat),
            z == repair_layer(p, lost, idx as nat),
            x > z_y ==> row_cell(recovered@, z as int, size) == cell(u, lost as int, z as int, size),
            forall|x2: nat|
                x2 < x && sibling(p, lost, x2) != lost && h[sibling(p, lost, x2) as int] is Some
                    ==> #[trigger] row_cell(
                    recovered@,
                    p.companion_layer(sibling(p, lost, x2), z as nat) as int,
                    size,
                ) == cstar_of_c_and_u(
                    hcell(p, size, lost, h, sibling(p, lost, x2) as int, z as int),
                    cell(u, sibling(p, lost, x2) as int, z as int, size),
                ),
            forall|l: int|
                0 <= l < p.sub_chunk_no && p.companion_layer(lost, l as nat) != z
                    ==> #[trigger] row_cell(recovered@, l, size) == row_cell(r0, l, size),
        decreases p.q - x,
    {
        proof {
            lemma_node_in_range(p, x as nat, y as nat);
            crate::decode::lemma_all_cell_bounds(p, size);
            lemma_repair_layers(p, lost);
        }
        let node = y * params.q + x;
        let ghost r_before = recovered@;
        proof {
            assert(node == sibling(p, lost, x as nat));
            lemma_node_geometry(p, node as nat, z as nat);
            lemma_companion_geometry(p, node as nat, z as nat);
            lemma_node_geometry(p, lost, z as nat);
            assert(p.companion_node(node as nat, z as nat) == lost);
        }
        if x == z_y {
            if node == lost_internal {
                let u = get_cell(params, u_buf, node, z, sub_chunk_size);
                proof {
                    crate::layout::lemma_cell_bounds(z as nat, p.sub_chunk_no as nat, size);
                }
                store_row(recovered, z, sub_chunk_size, &u);
            }
            proof {
                assert(node == lost);
                assert forall|x2: nat|
                    x2 < x + 1 && sibling(p, lost, x2) != lost && h[sibling(p, lost, x2) as int]
                        is Some implies #[trigger] row_cell(
                    recovered@,
                    p.companion_layer(sibling(p, lost, x2), z as nat) as int,
                    size,
                ) == cstar_of_c_and_u(
                    hcell(p, size, lost, h, sibling(p, lost, x2) as int, z as int),
                    cell(u, sibling(p, lost, x2) as int, z as int, size),
                ) by {
                    lemma_sibling_layer(p, lost, z as nat, x2);
                    let l2 = p.companion_layer(sibling(p, lost, x2), z as nat) as int;
                    assert(row_cell(recovered@, l2, size) == row_cell(r_before, l2, size));
                }
                assert forall|l: int|
                    0 <= l < p.sub_chunk_no && p.companion_layer(lost, l as nat)
                        != z implies #[trigger] row_cell(recovered@, l, size) == row_cell(
                    r0,
                    l,
                    size,
                ) by {
                    assert(row_cell(recovered@, l, size) == row_cell(r_before, l, size));
                }
            }
        } else {
            let z_sw = get_companion_layer(params, z, x, y, z_y);
            if helper_rows[node].is_some() {
                let c_node = get_helper_cell(params, helper_rows, node, idx, sub_chunk_size);
                let u_node = get_cell(params, u_buf, node, z, sub_chunk_size);
                let c_lost = compute_cstar_from_c_and_u(c_node.as_slice(), u_node.as_slice());
                proof {
                    crate::layout::lemma_cell_bounds(z_sw as nat, p.sub_chunk_no as nat, size);
                }
                store_row(recovered, z_sw, sub_chunk_size, &c_lost);
            }
            proof {
                lemma_sibling_layer(p, lost, z as nat, x as nat);
                assert(z_sw == p.companion_layer(node as nat, z as nat));
                assert(repair_index(p, lost, z as nat) == idx);
                assert forall|x2: nat|
                    x2 < x + 1 && sibling(p, lost, x2) != lost && h[sibling(p, lost, x2) as int]
                        is Some implies #[trigger] row_cell(
                    recovered@,
                    p.companion_layer(sibling(p, lost, x2), z as nat) as int,
                    size,
                ) == cstar_of_c_and_u(
                    hcell(p, size, lost, h, sibling(p, lost, x2) as int, z as int),
                    cell(u, sibling(p, lost, x2) as int, z as int, size),
                ) by {
                    if x2 < x {
                        lemma_sibling_layer(p, lost, z as nat, x2);
                        let l2 = p.companion_layer(sibling(p, lost, x2), z as nat) as int;
                        assert(l2 != z_sw);
                        assert(row_cell(recovered@, l2, size) == row_cell(r_before, l2, size));
                    }
                }
                assert forall|l: int|
                    0 <= l < p.sub_chunk_no && p.companion_layer(lost, l as nat)
                        != z implies #[trigger] row_cell(recovered@, l, size) == row_cell(
                    r0,
                    l,
                    size,
                ) by {
                    assert(l != z_sw);
                    assert(row_cell(recovered@, l, size) == row_cell(r_before, l, size));
                }
                if x > z_y {
                    assert(z_sw != z);
                    assert(row_cell(recovered@, z as int, size) == row_cell(
                        r_before,
                        z as int,
                        size,
                    ));
                }
            }
        }
        x += 1;
    }
}

/// The external index of the first node of the lost node's y-section that
/// should be a helper and is not, if there is one.
pub fn first_missing_sibling(
    params: &RepairParams,
    lost_internal: usize,
    helper_data: &HashMap<usize, Vec<u8>>,
) -> (r: Option<usize>)
    requires
        params.wf(),
        lost_internal < params.nodes(),
    ensures
        r is None <==> forall|x: nat|
            x < params.q ==> !#[trigger] is_missing_sibling(
                *params,
                lost_internal as nat,
                helper_data@.dom(),
                x,
            ),
        r matches Some(h) ==> exists|x: nat|
            {
                &&& x < params.q
                &&& #[trigger] is_missing_sibling(*params, lost_internal as nat, helper_data@.dom(), x)
                &&& h == to_external(*params, sibling(*params, lost_internal as nat, x) as int)
                &&& forall|x2: nat|
                    x2 < x ==> !#[trigger] is_missing_sibling(
                        *params,
                        lost_internal as nat,
                        helper_data@.dom(),
                        x2,
                    )
            },
{
    let ghost p = *params;
    proof {
        p.lemma_wf();
        lemma_node_geometry(p, lost_internal as nat, 0);
    }
    let lost_y = lost_internal / params.q;
    let mut x: usize = 0;
    while x < params.q
        invariant
            x <= p.q,
            p == *params,
            p.wf(),
            lost_internal < p.nodes(),
            lost_y == lost_internal / p.q,
            lost_y < p.t,
            p.nodes() == p.k + p.nu + p.m,
            forall|x2: nat|
                x2 < x ==> !#[trigger] is_missing_sibling(
                    p,
                    lost_internal as nat,
                    helper_data@.dom(),
                    x2,
                ),
        decreases p.q - x,
    {
        proof {
            lemma_node_in_range(p, x as nat, lost_y as nat);
        }
        let node = lost_y * params.q + x;
        if node != lost_internal && !(node >= params.k && node < params.k + params.nu) {
            let external_idx = if node < params.k {
                node
            } else {
                node - params.nu
            };
            if !helper_data.contains_key(&external_idx) {
                assert(is_missing_sibling(p, lost_internal as nat, helper_data@.dom(), x as nat));
                return Some(external_idx);
            }
        }
        x += 1;
    }
    None
}

/// After phases A to C of a layer of the current order the layer is
/// complete: what held of the complete layers holds of them and of the new
/// one.
pub proof fn lemma_repair_advance(
    p: EncodeParams,
    size: nat,
    lost: nat,
    aloof: Set<usize>,
    base: Set<usize>,
    h: Seq<Option<Vec<u8>>>,
    u: Seq<Seq<u8>>,
    u2: Seq<Seq<u8>>,
    k: Seq<Seq<bool>>,
    k2: Seq<Seq<bool>>,
    r: Seq<u8>,
    r2: Seq<u8>,
    s: nat,
    idx: nat,
)
    requires
        p.wf(),
        lost < p.nodes(),
        idx < p.sub_chunk_no / p.q,
        s == score(p, aloof, repair_layer(p, lost, idx)) + 1,
        repair_settled(p, size, lost, aloof, base, u, k, s, idx),
        lost_set(p, size, lost, aloof, h, u, r, s, idx),
        repair_drew(p, lost, aloof, base, k2, s, idx),
        grown(p, k, k2),
        forall|n: int, i: int|
            0 <= n < p.nodes() && 0 <= i < p.sub_chunk_no / p.q && repair_complete(
                p,
                lost,
                aloof,
                s,
                idx,
                i as nat,
            ) ==> #[trigger] cell(u2, n, repair_layer(p, lost, i as nat) as int, size) == cell(
                u,
                n,
                repair_layer(p, lost, i as nat) as int,
                size,
            ),
        layer_determined(p, size, base, u2, repair_layer(p, lost, idx) as int),
        forall|n: int|
            0 <= n < p.nodes() && !base.contains(n as usize) ==> #[trigger] known(
                k2,
                n,
                repair_layer(p, lost, idx) as int,
            ),
        lost_ok(p, size, lost, h, u2, r2, repair_layer(p, lost, idx) as int),
        forall|l: int|
            0 <= l < p.sub_chunk_no && p.companion_layer(lost, l as nat) != repair_layer(
                p,
                lost,
                idx,
            ) ==> #[trigger] row_cell(r2, l, size) == row_cell(r, l, size),
    ensures
        repair_settled(p, size, lost, aloof, base, u2, k2, s, idx + 1),
        lost_set(p, size, lost, aloof, h, u2, r2, s, idx + 1),
        repair_drew(p, lost, aloof, base, k2, s, idx + 1),
{
    p.lemma_wf();
    lemma_repair_layers(p, lost);
    let z = repair_layer(p, lost, idx);
    assert forall|i: int|
        0 <= i < p.sub_chunk_no / p.q && repair_complete(
            p,
            lost,
            aloof,
            s,
            idx + 1,
            i as nat,
        ) implies {
        &&& #[trigger] layer_determined(p, size, base, u2, repair_layer(p, lost, i as nat) as int)
        &&& forall|n: int|
            0 <= n < p.nodes() && !base.contains(n as usize) ==> #[trigger] known(
                k2,
                n,
                repair_layer(p, lost, i as nat) as int,
            )
    } by {
        let l = repair_layer(p, lost, i as nat) as int;
        if i != idx {
            assert(repair_complete(p, lost, aloof, s, idx, i as nat));
            assert(layer_determined(p, size, base, u, l));
            assert forall|n: int| 0 <= n < p.nodes() implies cell(u2, n, l, size) == cell(
                u,
                n,
                l,
                size,
            ) by {
                assert(cell(u2, n, repair_layer(p, lost, i as nat) as int, size) == cell(
                    u,
                    n,
                    repair_layer(p, lost, i as nat) as int,
                    size,
                ));
            }
            crate::tracking::lemma_layer_frame(p, size, base, u, u2, l);
            assert forall|n: int| 0 <= n < p.nodes() && !base.contains(n as usize) implies #[trigger] known(
                k2,
                n,
                repair_layer(p, lost, i as nat) as int,
            ) by {
                assert(known(k, n, repair_layer(p, lost, i as nat) as int));
            }
        }
    }
    assert forall|i: int|
        0 <= i < p.sub_chunk_no / p.q && repair_complete(
            p,
            lost,
            aloof,
            s,
            idx + 1,
            i as nat,
        ) implies #[trigger] lost_ok(
        p,
        size,
        lost,
        h,
        u2,
        r2,
        repair_layer(p, lost, i as nat) as int,
    ) by {
        let l = repair_layer(p, lost, i as nat);
        if i != idx {
            assert(repair_complete(p, lost, aloof, s, idx, i as nat));
            assert(lost_ok(p, size, lost, h, u, r, l as int));
            assert(repair_index(p, lost, l) == i);
            assert(l != z);
            lemma_companion_geometry(p, lost, l);
            assert(cell(u2, lost as int, repair_layer(p, lost, i as nat) as int, size) == cell(
                u,
                lost as int,
                repair_layer(p, lost, i as nat) as int,
                size,
            ));
            assert(row_cell(r2, l as int, size) == row_cell(r, l as int, size));
            assert forall|x: nat|
                x < p.q && sibling(p, lost, x) != lost && h[sibling(p, lost, x) as int]
                    is Some implies #[trigger] row_cell(
                r2,
                p.companion_layer(sibling(p, lost, x), l) as int,
                size,
            ) == cstar_of_c_and_u(
                hcell(p, size, lost, h, sibling(p, lost, x) as int, l as int),
                cell(u2, sibling(p, lost, x) as int, l as int, size),
            ) by {
                lemma_sibling_layer(p, lost, l, x);
                let tgt = p.companion_layer(sibling(p, lost, x), l) as int;
                assert(row_cell(r2, tgt, size) == row_cell(r, tgt, size));
                assert(cell(
                    u2,
                    sibling(p, lost, x) as int,
                    repair_layer(p, lost, i as nat) as int,
                    size,
                ) == cell(
                    u,
                    sibling(p, lost, x) as int,
                    repair_layer(p, lost, i as nat) as int,
                    size,
                ));
            }
        }
    }
    assert forall|n: int, l: int|
        0 <= n < p.nodes() && 0 <= l < p.sub_chunk_no && #[trigger] known(k2, n, l) && p.is_red(
            lost,
            l as nat,
        ) && !base.contains(n as usize) && aloof.contains(
            p.companion_node(n as nat, l as nat) as usize,
        ) implies repair_complete(
        p,
        lost,
        aloof,
        s,
        idx + 1,
        repair_index(p, lost, p.companion_layer(n as nat, l as nat)),
    ) by {
        assert(repair_complete(
            p,
            lost,
            aloof,
            s,
            idx,
            repair_index(p, lost, p.companion_layer(n as nat, l as nat)),
        ));
    }
}

/// A layer of another order than the current one is passed over.
pub proof fn lemma_repair_skip(
    p: EncodeParams,
    size: nat,
    lost: nat,
    aloof: Set<usize>,
    base: Set<usize>,
    h: Seq<Option<Vec<u8>>>,
    u: Seq<Seq<u8>>,
    k: Seq<Seq<bool>>,
    r: Seq<u8>,
    s: nat,
    idx: nat,
)
    requires
        score(p, aloof, repair_layer(p, lost, idx)) + 1 != s,
        repair_up_to_date(p, lost, aloof, k, s, idx),
        repair_settled(p, size, lost, aloof, base, u, k, s, idx),
        lost_set(p, size, lost, aloof, h, u, r, s, idx),
        repair_drew(p, lost, aloof, base, k, s, idx),
    ensures
        repair_up_to_date(p, lost, aloof, k, s, idx + 1),
        repair_settled(p, size, lost, aloof, base, u, k, s, idx + 1),
        lost_set(p, size, lost, aloof, h, u, r, s, idx + 1),
        repair_drew(p, lost, aloof, base, k, s, idx + 1),
{
    assert forall|i: nat| repair_complete(p, lost, aloof, s, idx + 1, i) implies repair_complete(
        p,
        lost,
        aloof,
        s,
        idx,
        i,
    ) by {}
    assert forall|n: int, l: int|
        0 <= n < p.nodes() && 0 <= l < p.sub_chunk_no && #[trigger] known(k, n, l) && p.is_red(
            lost,
            l as nat,
        ) && !base.contains(n as usize) && aloof.contains(
            p.companion_node(n as nat, l as nat) as usize,
        ) implies repair_complete(
        p,
        lost,
        aloof,
        s,
        idx + 1,
        repair_index(p, lost, p.companion_layer(n as nat, l as nat)),
    ) by {
        assert(repair_complete(
            p,
            lost,
            aloof,
            s,
            idx,
            repair_index(p, lost, p.companion_layer(n as nat, l as nat)),
        ));
    }
}

/// After the last layer of an order the repair goes on to the next order.
pub proof fn lemma_repair_next_order(
    p: EncodeParams,
    size: nat,
    lost: nat,
    aloof: Set<usize>,
    base: Set<usize>,
    h: Seq<Option<Vec<u8>>>,
    u: Seq<Seq<u8>>,
    k: Seq<Seq<bool>>,
    r: Seq<u8>,
    s: nat,
)
    requires
        p.wf(),
        lost < p.nodes(),
        repair_up_to_date(p, lost, aloof, k, s, (p.sub_chunk_no / p.q) as nat),
        repair_settled(p, size, lost, aloof, base, u, k, s, (p.sub_chunk_no / p.q) as nat),
        lost_set(p, size, lost, aloof, h, u, r, s, (p.sub_chunk_no / p.q) as nat),
        repair_drew(p, lost, aloof, base, k, s, (p.sub_chunk_no / p.q) as nat),
    ensures
        repair_up_to_date(p, lost, aloof, k, s + 1, 0),
        repair_settled(p, size, lost, aloof, base, u, k, s + 1, 0),
        lost_set(p, size, lost, aloof, h, u, r, s + 1, 0),
        repair_drew(p, lost, aloof, base, k, s + 1, 0),
{
    let beta = (p.sub_chunk_no / p.q) as nat;
    lemma_repair_layers(p, lost);
    assert forall|i: nat| i < beta && repair_complete(p, lost, aloof, s + 1, 0, i) implies repair_complete(
        p,
        lost,
        aloof,
        s,
        beta,
        i,
    ) by {}
    assert forall|n: int, i: int|
        0 <= n < p.nodes() && 0 <= i < p.sub_chunk_no / p.q && aloof.contains(n as usize)
            && repair_complete(p, lost, aloof, s + 1, 0, i as nat) implies #[trigger] known(
        k,
        n,
        repair_layer(p, lost, i as nat) as int,
    ) by {
        assert(repair_complete(p, lost, aloof, s, beta, i as nat));
    }
    assert forall|n: int, l: int|
        0 <= n < p.nodes() && 0 <= l < p.sub_chunk_no && #[trigger] known(k, n, l) && p.is_red(
            lost,
            l as nat,
        ) && !base.contains(n as usize) && aloof.contains(
            p.companion_node(n as nat, l as nat) as usize,
        ) implies repair_complete(
        p,
        lost,
        aloof,
        s + 1,
        0,
        repair_index(p, lost, p.companion_layer(n as nat, l as nat)),
    ) by {
        assert(repair_complete(
            p,
            lost,
            aloof,
            s,
            beta,
            repair_index(p, lost, p.companion_layer(n as nat, l as nat)),
        ));
    }
}

/// What a repair is given is in order: the lost node is one of the code,
/// there are at least `d` helpers, the chunk size is a positive multiple
/// of the number of sub-chunks, every node of the lost node's y-section
/// that is a chunk is a helper, and every helper is a chunk and has handed
/// over `beta` sub-chunks.
pub open spec fn repair_input_ok(
    p: EncodeParams,
    lost_node: usize,
    data: Map<usize, Vec<u8>>,
    chunk_size: usize,
) -> bool {
    &&& lost_node < p.n
    &&& data.dom().len() >= p.k + p.q - 1
    &&& chunk_size > 0
    &&& chunk_size % p.sub_chunk_no == 0
    &&& forall|x: nat|
        x < p.q ==> !#[trigger] is_missing_sibling(
            p,
            p.to_internal(lost_node as int) as nat,
            data.dom(),
            x,
        )
    &&& helpers_ok(
        p,
        data,
        ((p.sub_chunk_no / p.q) * (chunk_size / p.sub_chunk_no)) as nat,
    )
}

/// Whether every helper has handed over the sub-chunks of the code word
/// `word` for the layers in which the lost node is red, in their order.
pub open spec fn helper_data_agree(
    p: EncodeParams,
    size: nat,
    lost: nat,
    data: Map<usize, Vec<u8>>,
    word: Seq<Seq<u8>>,
) -> bool {
    forall|ext: usize, i: int|
        data.contains_key(ext) && p.to_internal(ext as int) != lost && 0 <= i < p.sub_chunk_no
            / p.q ==> #[trigger] row_cell(data[ext]@, i, size) == cell(
            word,
            p.to_internal(ext as int),
            repair_layer(p, lost, i as nat) as int,
            size,
        )
}

/// What `repair` returns: which error on which input, and a chunk of the
/// given size otherwise: the lost chunk, where the helpers handed over
/// sub-chunks of a code word.
pub open spec fn repair_post(
    p: EncodeParams,
    lost_node: usize,
    data: Map<usize, Vec<u8>>,
    chunk_size: usize,
    r: Result<Vec<u8>, ClayError>,
) -> bool {
    let lost = p.to_internal(lost_node as int) as nat;
    let bytes = ((p.sub_chunk_no / p.q) * (chunk_size / p.sub_chunk_no)) as nat;
    &&& lost_node >= p.n ==> (r matches Err(ClayError::InvalidParameters(_)))
    &&& lost_node < p.n && data.dom().len() < p.k + p.q - 1 ==> r == Err::<Vec<u8>, ClayError>(
        ClayError::InsufficientHelpers {
            needed: (p.k + p.q - 1) as usize,
            provided: data.dom().len() as usize,
        },
    )
    &&& lost_node < p.n && data.dom().len() >= p.k + p.q - 1 && (chunk_size == 0 || chunk_size
        % p.sub_chunk_no != 0) ==> r == Err::<Vec<u8>, ClayError>(
        ClayError::InvalidChunkSize { expected: p.sub_chunk_no, actual: chunk_size },
    )
    &&& lost_node < p.n && data.dom().len() >= p.k + p.q - 1 && chunk_size > 0 && chunk_size
        % p.sub_chunk_no == 0 && (exists|x: nat|
        x < p.q && #[trigger] is_missing_sibling(p, lost, data.dom(), x)) ==> (r matches Err(
        ClayError::MissingYSectionHelper { lost_node: l, missing_helper: h },
    ) && l == lost_node && exists|x: nat|
        {
            &&& x < p.q
            &&& #[trigger] is_missing_sibling(p, lost, data.dom(), x)
            &&& h == to_external(p, sibling(p, lost, x) as int)
            &&& forall|x2: nat| x2 < x ==> !#[trigger] is_missing_sibling(p, lost, data.dom(), x2)
        })
    &&& lost_node < p.n && data.dom().len() >= p.k + p.q - 1 && chunk_size > 0 && chunk_size
        % p.sub_chunk_no == 0 && (forall|x: nat|
        x < p.q ==> !#[trigger] is_missing_sibling(p, lost, data.dom(), x)) && !helpers_ok(
        p,
        data,
        bytes,
    ) ==> r is Err && is_helper_error(p, data, bytes, r->Err_0)
    &&& repair_input_ok(p, lost_node, data, chunk_size) && p.original_count + p.recovery_count
        > 256 ==> (r matches Err(ClayError::ReconstructionFailed(_)))
    &&& repair_input_ok(p, lost_node, data, chunk_size) && p.original_count + p.recovery_count
        <= 256 && erased_count(p, base_set(p, lost, data.dom())) > p.m ==> r == Err::<
        Vec<u8>,
        ClayError,
    >(
        ClayError::TooManyErasures {
            max: p.m,
            actual: erased_count(p, base_set(p, lost, data.dom())) as usize,
        },
    )
    &&& repair_input_ok(p, lost_node, data, chunk_size) && p.original_count + p.recovery_count
        <= 256 && erased_count(p, base_set(p, lost, data.dom())) <= p.m ==> r is Ok
    &&& r matches Ok(chunk) ==> chunk@.len() == chunk_size
    &&& r is Ok ==> forall|word: Seq<Seq<u8>>|
        #[trigger] is_clay_codeword(p, (chunk_size / p.sub_chunk_no) as nat, word)
            && helper_data_agree(p, (chunk_size / p.sub_chunk_no) as nat, lost, data, word)
            ==> r->Ok_0@ == word[lost as int]
}

/// Recovers the chunk of `lost_node` from the sub-chunks that the helpers
/// have handed over.
///
/// `helper_data` holds, by external index of the helper, the sub-chunks of
/// the layers in which the lost node is red, one after the other in
/// ascending order of the layers: what [`minimum_to_repair`] asks for.
pub fn repair(
    params: &RepairParams,
    lost_node: usize,
    helper_data: &HashMap<usize, Vec<u8>>,
    chunk_size: usize,
) -> (r: Result<Vec<u8>, ClayError>)
    requires
        params.wf(),
    ensures
        repair_post(*params, lost_node, helper_data@, chunk_size, r),
{
    let ghost p = *params;
    let ghost data = helper_data@;
    proof {
        p.lemma_wf();
    }
    let d = params.k + params.q - 1;
    if lost_node >= params.n {
        return Err(ClayError::InvalidParameters("Invalid lost node index".to_owned()));
    }
    if helper_data.len() < d {
        return Err(ClayError::InsufficientHelpers { needed: d, provided: helper_data.len() });
    }
    if chunk_size == 0 || chunk_size % params.sub_chunk_no != 0 {
        return Err(
            ClayError::InvalidChunkSize { expected: params.sub_chunk_no, actual: chunk_size },
        );
    }
    let lost_internal = internal_index(params, lost_node);
    let ghost lost = lost_internal as nat;
    let repair_sub_chunk_indices = match get_repair_subchunk_indices(params, lost_internal) {
        Ok(v) => v,
        Err(err) => {
            return Err(err);
        },
    };
    let sub_chunk_size = chunk_size / params.sub_chunk_no;
    let ghost size = sub_chunk_size as nat;
    let beta = repair_sub_chunk_indices.len();
    proof {
        vstd::arithmetic::div_mod::lemma_fundamental_div_mod(
            chunk_size as int,
            params.sub_chunk_no as int,
        );
        assert(sub_chunk_size >= 1) by (nonlinear_arith)
            requires
                chunk_size == params.sub_chunk_no * sub_chunk_size,
                chunk_size > 0,
                params.sub_chunk_no > 0,
                sub_chunk_size >= 0,
        ;
        vstd::arithmetic::div_mod::lemma_fundamental_div_mod(p.sub_chunk_no as int, p.q as int);
        assert(beta <= p.sub_chunk_no) by (nonlinear_arith)
            requires
                p.sub_chunk_no == p.q * beta,
                p.q >= 2,
                beta >= 0,
        ;
        assert(beta * sub_chunk_size <= chunk_size) by (nonlinear_arith)
            requires
                chunk_size == params.sub_chunk_no * sub_chunk_size,
                beta <= params.sub_chunk_no,
                sub_chunk_size >= 0,
        ;
        lemma_repair_layers(p, lost);
        vstd::arithmetic::power::lemma_pow_positive(p.q as int, lost / (p.q as nat));
        assert(beta >= 1) by (nonlinear_arith)
            requires
                section_weight(p, lost) * pow(p.q as int, lost / (p.q as nat)) == beta,
                section_weight(p, lost) >= 1,
                pow(p.q as int, lost / (p.q as nat)) >= 1,
        ;
    }
    let expected_helper_bytes = beta * sub_chunk_size;
    let total_nodes = params.q * params.t;
    match first_missing_sibling(params, lost_internal, helper_data) {
        Some(external_idx) => {
            proof {
                let x = choose|x: nat|
                    {
                        &&& x < p.q
                        &&& #[trigger] is_missing_sibling(p, lost, data.dom(), x)
                        &&& external_idx == to_external(p, sibling(p, lost, x) as int)
                        &&& forall|x2: nat|
                            x2 < x ==> !#[trigger] is_missing_sibling(p, lost, data.dom(), x2)
                    };
                assert(is_missing_sibling(p, p.to_internal(lost_node as int) as nat, data.dom(), x));
            }
            return Err(
                ClayError::MissingYSectionHelper { lost_node, missing_helper: external_idx },
            );
        },
        None => {},
    }
    let mut u_buf = zeroed(total_nodes, chunk_size);
    let mut u_computed = no_flags(params);
    let mut recovered = zero_row(chunk_size);
    let helper_rows = match collect_helpers(params, helper_data, expected_helper_bytes) {
        Ok(rows) => rows,
        Err(err) => {
            return Err(err);
        },
    };
    let ghost bytes = expected_helper_bytes as nat;
    proof {
        assert(p.t < p.q * p.t) by (nonlinear_arith)
            requires
                p.q >= 2,
                p.t >= 1,
        ;
        assert(p.t + 1 < usize::MAX) by (nonlinear_arith)
            requires
                p.q * p.t <= usize::MAX,
                p.q >= 2,
                p.t >= 1,
                p.t < p.q * p.t,
                p.sub_chunk_no >= p.q * p.t,
                p.q * p.t == p.k + p.nu + p.m,
                p.k >= 1,
                p.m >= 2,
        ;
    }
    let aloof_nodes = find_aloof(params, lost_internal, &helper_rows, Ghost(data), Ghost(bytes));
    let ghost aloof = aloof_nodes@;
    let mut orders: Vec<usize> = Vec::new();
    let mut max_order: usize = 0;
    let mut i: usize = 0;
    while i < beta
        invariant
            i <= beta,
            p == *params,
            p.wf(),
            p.t < usize::MAX,
            lost == lost_internal,
            lost < p.nodes(),
            beta == p.sub_chunk_no / p.q,
            repair_sub_chunk_indices@.len() == beta,
            forall|j: int|
                0 <= j < beta ==> repair_sub_chunk_indices@[j] == repair_layer(p, lost, j as nat),
            aloof == aloof_nodes@,
            orders@.len() == i,
            forall|j: int|
                0 <= j < i ==> orders@[j] == score(p, aloof, repair_layer(p, lost, j as nat)) + 1,
            forall|j: int| 0 <= j < i ==> orders@[j] <= max_order,
            max_order <= p.t + 1,
            p.t + 1 < usize::MAX,
        decreases beta - i,
    {
        let z = repair_sub_chunk_indices[i];
        proof {
            lemma_repair_layers(p, lost);
            lemma_node_geometry(p, lost, z as nat);
            assert(repair_layer(p, lost, i as nat) < p.sub_chunk_no);
        }
        let z_vec = get_plane_vector(z, params.t, params.q);
        let mut order: usize = 0;
        if lost_internal % params.q == z_vec[lost_internal / params.q] {
            order += 1;
        }
        order += plane_score(params, &aloof_nodes, z);
        if order > max_order {
            max_order = order;
        }
        orders.push(order);
        i += 1;
    }
    let base_erasures = find_base(params, lost_internal, &aloof_nodes, Ghost(data.dom()));
    let ghost base = base_erasures@;
    let ghost h = helper_rows@;
    proof {
        lemma_roles(p, lost, data, h, bytes);
    }
    let rs = match codec_new(params.original_count, params.recovery_count) {
        Ok(rs) => rs,
        Err(err) => {
            return Err(ClayError::ReconstructionFailed(codec_error_text(&err)));
        },
    };
    let mut s: usize = 0;
    while s <= max_order
        invariant
            s <= max_order + 1,
            max_order <= p.t + 1,
            p.t + 1 < usize::MAX,
            p == *params,
            p.wf(),
            lost == lost_internal,
            lost < p.nodes(),
            size == sub_chunk_size,
            size >= 1,
            beta == p.sub_chunk_no / p.q,
            beta >= 1,
            bytes == beta * size,
            chunk_size == p.sub_chunk_no * size,
            total_nodes == p.nodes(),
            codec_data_shards(rs) == p.original_count,
            codec_parity_shards(rs) == p.recovery_count,
            repair_sub_chunk_indices@.len() == beta,
            forall|j: int|
                0 <= j < beta ==> repair_sub_chunk_indices@[j] == repair_layer(p, lost, j as nat),
            orders@.len() == beta,
            forall|j: int|
                0 <= j < beta ==> orders@[j] == score(p, aloof, repair_layer(p, lost, j as nat))
                    + 1,
            forall|j: int| 0 <= j < beta ==> orders@[j] <= max_order,
            helper_rows_ok(p, data, helper_rows@, bytes),
            aloof == aloof_nodes@,
            base == base_erasures@,
            aloof == aloof_set(p, lost, data.dom()),
            base == base_set(p, lost, data.dom()),
            buffer_ok(p, size, &u_buf),
            flags_ok(p, &u_computed),
            recovered@.len() == chunk_size,
            repair_up_to_date(p, lost, aloof, flags(&u_computed), s as nat, 0),
            erased_count(p, base) > p.m ==> forall|j: int| 0 <= j < beta ==> orders@[j] >= s,
            h == helper_rows@,
            roles_ok(p, lost, aloof, base, h),
            helper_known(p, size, lost, aloof, base, h, rows(&u_buf), flags(&u_computed)),
            repair_drew(p, lost, aloof, base, flags(&u_computed), s as nat, 0),
            repair_settled(p, size, lost, aloof, base, rows(&u_buf), flags(&u_computed), s as nat, 0),
            lost_set(p, size, lost, aloof, h, rows(&u_buf), recovered@, s as nat, 0),
            repair_input_ok(p, lost_node, data, chunk_size),
            lost == p.to_internal(lost_node as int),
            p.original_count + p.recovery_count <= 256,
            data == helper_data@,
        decreases max_order + 1 - s,
    {
        let mut idx: usize = 0;
        while idx < beta
            invariant
                idx <= beta,
                s <= max_order,
                p == *params,
                p.wf(),
                lost == lost_internal,
                lost < p.nodes(),
                size == sub_chunk_size,
                size >= 1,
                beta == p.sub_chunk_no / p.q,
                bytes == beta * size,
                chunk_size == p.sub_chunk_no * size,
                total_nodes == p.nodes(),
                codec_data_shards(rs) == p.original_count,
                codec_parity_shards(rs) == p.recovery_count,
                repair_sub_chunk_indices@.len() == beta,
                forall|j: int|
                    0 <= j < beta ==> repair_sub_chunk_indices@[j] == repair_layer(
                        p,
                        lost,
                        j as nat,
                    ),
                orders@.len() == beta,
                forall|j: int|
                    0 <= j < beta ==> orders@[j] == score(
                        p,
                        aloof,
                        repair_layer(p, lost, j as nat),
                    ) + 1,
                helper_rows_ok(p, data, helper_rows@, bytes),
                aloof == aloof_nodes@,
                base == base_erasures@,
                aloof == aloof_set(p, lost, data.dom()),
                base == base_set(p, lost, data.dom()),
                buffer_ok(p, size, &u_buf),
                flags_ok(p, &u_computed),
                recovered@.len() == chunk_size,
                repair_up_to_date(p, lost, aloof, flags(&u_computed), s as nat, idx as nat),
                erased_count(p, base) > p.m ==> forall|j: int|
                    0 <= j < beta ==> orders@[j] > s || (orders@[j] == s && j >= idx),
                h == helper_rows@,
                roles_ok(p, lost, aloof, base, h),
                helper_known(p, size, lost, aloof, base, h, rows(&u_buf), flags(&u_computed)),
                repair_drew(p, lost, aloof, base, flags(&u_computed), s as nat, idx as nat),
                repair_settled(
                    p,
                    size,
                    lost,
                    aloof,
                    base,
                    rows(&u_buf),
                    flags(&u_computed),
                    s as nat,
                    idx as nat,
                ),
                lost_set(p, size, lost, aloof, h, rows(&u_buf), recovered@, s as nat, idx as nat),
                repair_input_ok(p, lost_node, data, chunk_size),
                lost == p.to_internal(lost_node as int),
                p.original_count + p.recovery_count <= 256,
                data == helper_data@,
            decreases beta - idx,
        {
            let ghost u_start = rows(&u_buf);
            let ghost k_start = flags(&u_computed);
            let ghost r_start = recovered@;
            if orders[idx] == s {
                let z = repair_sub_chunk_indices[idx];
                proof {
                    lemma_repair_layers(p, lost);
                    assert(repair_layer(p, lost, idx as nat) < p.sub_chunk_no);
                }
                let layer_erasures = uncouple_helpers(
                    params,
                    lost_internal,
                    idx,
                    z,
                    &helper_rows,
                    &aloof_nodes,
                    &base_erasures,
                    &mut u_buf,
                    &mut u_computed,
                    sub_chunk_size,
                    Ghost(data),
                );
                let ghost u_a = rows(&u_buf);
                match decode_uncoupled_layer(
                    params,
                    &layer_erasures,
                    z,
                    sub_chunk_size,
                    &mut u_buf,
                    &rs,
                ) {
                    Err(err) => {
                        return Err(err);
                    },
                    Ok(()) => {},
                }
                let ghost k_mid = flags(&u_computed);
                let ghost u_b = rows(&u_buf);
                proof {
                    lemma_repair_phase_b(p, size, lost, aloof, base, h, u_a, u_b, k_mid, idx as nat);
                    assert forall|word: Seq<Seq<u8>>| #[trigger]
                        layer_agrees(p, size, u_b, base, z as int, word) && is_layer_codeword(
                            p,
                            word,
                        ) implies layer(u_b, z as int, size, p.nodes()) == word by {
                        assert forall|n: int|
                            0 <= n < p.nodes() && !base.contains(n as usize) implies cell(
                            u_a,
                            n,
                            z as int,
                            size,
                        ) == #[trigger] word[n] by {
                            assert(cell(u_b, n, z as int, size) == cell(u_a, n, z as int, size));
                        }
                        assert(layer_agrees(p, size, u_a, base, z as int, word));
                    }
                    assert(layer_determined(p, size, base, u_b, z as int));
                }
                let mut node: usize = 0;
                while node < total_nodes
                    invariant
                        node <= total_nodes,
                        total_nodes == p.nodes(),
                        p == *params,
                        layer_erasures@ == base,
                        z < p.sub_chunk_no,
                        flags_ok(p, &u_computed),
                        grown(p, k_mid, flags(&u_computed)),
                        forall|n: int|
                            0 <= n < node && base.contains(n as usize) ==> #[trigger] known(
                                flags(&u_computed),
                                n,
                                z as int,
                            ),
                        forall|n: int, l: int|
                            0 <= n < p.nodes() && 0 <= l < p.sub_chunk_no && #[trigger] known(
                                flags(&u_computed),
                                n,
                                l,
                            ) && !base.contains(n as usize) ==> known(k_mid, n, l),
                    decreases total_nodes - node,
                {
                    let ghost k_before = flags(&u_computed);
                    if layer_erasures.contains(&node) {
                        mark_known(params, &mut u_computed, node, z);
                    }
                    proof {
                        assert(grown(p, k_before, flags(&u_computed)));
                    }
                    node += 1;
                }
                recover_lost(
                    params,
                    lost_internal,
                    idx,
                    z,
                    &helper_rows,
                    &u_buf,
                    sub_chunk_size,
                    &mut recovered,
                );
                proof {
                    let k1 = flags(&u_computed);
                    let r1 = recovered@;
                    assert forall|n: int, j: int|
                        0 <= n < p.nodes() && 0 <= j < p.sub_chunk_no / p.q && aloof.contains(
                            n as usize,
                        ) && repair_complete(
                            p,
                            lost,
                            aloof,
                            s as nat,
                            (idx + 1) as nat,
                            j as nat,
                        ) implies #[trigger] known(k1, n, repair_layer(p, lost, j as nat) as int) by {
                        if j == idx {
                            assert(base.contains(n as usize));
                        } else {
                            assert(repair_complete(p, lost, aloof, s as nat, idx as nat, j as nat));
                            assert(known(k_mid, n, repair_layer(p, lost, j as nat) as int));
                        }
                    }
                    lemma_repair_mark(
                        p,
                        size,
                        lost,
                        aloof,
                        base,
                        h,
                        u_b,
                        k_mid,
                        k1,
                        s as nat,
                        idx as nat,
                    );
                    lemma_repair_advance(
                        p,
                        size,
                        lost,
                        aloof,
                        base,
                        h,
                        u_start,
                        u_b,
                        k_start,
                        k1,
                        r_start,
                        r1,
                        s as nat,
                        idx as nat,
                    );
                }
            } else {
                proof {
                    lemma_repair_skip(
                        p,
                        size,
                        lost,
                        aloof,
                        base,
                        h,
                        u_start,
                        k_start,
                        r_start,
                        s as nat,
                        idx as nat,
                    );
                }
            }
            idx += 1;
        }
        proof {
            lemma_repair_next_order(
                p,
                size,
                lost,
                aloof,
                base,
                h,
                rows(&u_buf),
                flags(&u_computed),
                recovered@,
                s as nat,
            );
        }
        s += 1;
    }
    proof {
        if erased_count(p, base) > p.m {
            assert(orders@[0] >= s);
            assert(false);
        }
        let u = rows(&u_buf);
        let k = flags(&u_computed);
        let r = recovered@;
        lemma_repair_layers(p, lost);
        assert forall|z: int| 0 <= z < p.sub_chunk_no && p.is_red(lost, z as nat) implies {
            &&& repair_index(p, lost, z as nat) < p.sub_chunk_no / p.q
            &&& #[trigger] repair_layer(p, lost, repair_index(p, lost, z as nat)) == z
            &&& repair_complete(p, lost, aloof, s as nat, 0, repair_index(p, lost, z as nat))
        } by {
            let i = repair_index(p, lost, z as nat);
            assert(orders@[i as int] <= max_order);
        }
        assert(has_shape(u, p.nodes(), p.sub_chunk_no as nat, size)) by {
            assert forall|i: int| 0 <= i < p.nodes() implies (#[trigger] u[i]).len()
                == p.sub_chunk_no * size by {
                assert(u_buf@[i]@.len() == p.sub_chunk_no * size);
            }
        }
        assert forall|n: int, z: int|
            0 <= n < p.nodes() && 0 <= z < p.sub_chunk_no && p.is_red(lost, z as nat)
                && !base.contains(n as usize) implies #[trigger] helper_uncoupled_ok(
            p,
            size,
            lost,
            aloof,
            h,
            u,
            n,
            z,
        ) by {
            let i = repair_index(p, lost, z as nat);
            assert(repair_layer(p, lost, i) == z);
            assert(layer_determined(p, size, base, u, repair_layer(p, lost, i) as int));
            assert(known(k, n, repair_layer(p, lost, i) as int));
        }
        assert forall|z: int|
            0 <= z < p.sub_chunk_no && p.is_red(lost, z as nat) implies #[trigger] layer_determined(
            p,
            size,
            base,
            u,
            z,
        ) by {
            let i = repair_index(p, lost, z as nat);
            assert(repair_layer(p, lost, i) == z);
            assert(layer_determined(p, size, base, u, repair_layer(p, lost, i) as int));
        }
        assert forall|z: int|
            0 <= z < p.sub_chunk_no && p.is_red(lost, z as nat) implies #[trigger] lost_ok(
            p,
            size,
            lost,
            h,
            u,
            r,
            z,
        ) by {
            let i = repair_index(p, lost, z as nat);
            assert(repair_layer(p, lost, i) == z);
            assert(lost_ok(p, size, lost, h, u, r, repair_layer(p, lost, i) as int));
        }
        assert(repaired(p, size, lost, aloof, base, h, u, r));
        assert forall|word: Seq<Seq<u8>>|
            #[trigger] is_clay_codeword(p, size, word) && helper_data_agree(
                p,
                size,
                lost,
                data,
                word,
            ) implies r == word[lost as int] by {
            assert forall|node: int, i: int|
                0 <= node < p.nodes() && h[node] is Some && node != lost && 0 <= i < p.sub_chunk_no
                    / p.q implies #[trigger] helper_cell(h, node, i, size) == cell(
                word,
                node,
                repair_layer(p, lost, i as nat) as int,
                size,
            ) by {
                let l = repair_layer(p, lost, i as nat) as int;
                crate::layout::lemma_cell_bounds(i as nat, beta as nat, size);
                if p.is_shortened(node) {
                    assert(word[node] == Seq::new((p.sub_chunk_no * size) as nat, |j: int| 0u8));
                    crate::layout::lemma_cell_bounds(l as nat, p.sub_chunk_no as nat, size);
                    assert(helper_cell(h, node, i, size) =~= cell(word, node, l, size));
                } else {
                    let ext = to_external(p, node) as usize;
                    assert(p.to_internal(ext as int) == node);
                    assert(row_cell(data[ext]@, i, size) == cell(word, node, l, size));
                }
            }
            assert(helpers_hold(p, size, lost, h, word));
            lemma_repaired_is_the_chunk(p, size, lost, aloof, base, h, u, r, word);
        }
    }
    Ok(recovered)
}

} // verus!
