//! Layered decoding: recovery of erased chunks.
//!
//! The decoder works layer by layer, in the order of the layers'
//! intersection scores. In each layer it uncouples what it has (phase A),
//! recovers the uncoupled values of the erased nodes with the scalar code
//! (phase B), and couples them again (phase C).

use vstd::prelude::*;
use vstd::arithmetic::power::pow;
use std::collections::BTreeSet;
use std::collections::HashMap;
use crate::maps::{append_bytes, copy_bytes, key_list, list_contains};
use crate::codec::{
    rs_reconstructed,
    codec_new,
    codec_data_shards,
    codec_encode,
    codec_error_text,
    codec_parity_shards,
    codec_reconstruct,
    count_present,
    opt_rows,
    rs_parity,
    Codec,
};
use crate::codeword::{
    agrees_outside,
    is_clay_codeword,
    lemma_decoded_is_the_codeword,
    coupled_ok,
    decoded,
    is_layer_codeword,
    layer,
    layer_agrees,
    layer_determined,
    parity_erased,
    uncoupled_ok,
};
use crate::coords::{get_plane_vector, power};
use crate::digits::{companion_of, digit, lemma_companion_is_with_digit, lemma_pow_monotonic, lemma_pow_step};
use crate::encode::EncodeParams;
use crate::error::ClayError;
use crate::layout::{cell, has_shape, in_row, lemma_cell_bounds, load, rows, store, zeroed};
use crate::planes::{
    lemma_score_of_companion,
    lemma_node_geometry,
    score,
    score_upto,
    section_hit,
    sections_hit,
    sections_hit_upto,
};
use crate::tracking::{
    lemma_coupled_next_layer,
    lemma_coupled_next_score,
    lemma_coupled_skip,
    lemma_phase_c_pass,
    lemma_phase_c_step,
    complete,
    coupled_done,
    coupled_set,
    drew_on_complete,
    layers_settled,
    lemma_coupled_set_frame,
    lemma_mark_erased,
    lemma_phase_a_step,
    lemma_phase_b_step,
    lemma_settled_advance,
    lemma_settled_next_score,
    lemma_settled_skip,
    lemma_uncoupled_known_frame,
    uncoupled_known,
    flags,
    flags_ok,
    grown,
    is_primary,
    known,
    lemma_phase_a_knows,
    lemma_progress_advance,
    lemma_progress_next_score,
    lemma_progress_skip,
    lemma_progress_start,
    up_to_date,
};
use crate::transforms::{
    compute_u_from_c_and_ustar,
    compute_c_from_u_and_cstar,
    cstar_from_sum,
    cstar_of_c_and_u,
    mix,
    pft_compute_both,
    prt_compute_both,
    unmix,
};

verus! {

/// The decoder reads the same parameters as the encoder.
pub type DecodeParams = EncodeParams;

/// A buffer with one row of `alpha` sub-chunks of `size` bytes per node.
pub open spec fn buffer_ok(p: EncodeParams, size: nat, buf: &Vec<Vec<u8>>) -> bool {
    &&& buf@.len() == p.nodes()
    &&& forall|i: int| 0 <= i < p.nodes() ==> (#[trigger] buf@[i])@.len() == p.sub_chunk_no * size
}

/// The number of erased nodes below `upto`.
pub open spec fn erased_upto(e: Set<usize>, upto: nat) -> nat
    decreases upto,
{
    if upto == 0 {
        0
    } else {
        erased_upto(e, (upto - 1) as nat) + if e.contains((upto - 1) as usize) {
            1nat
        } else {
            0nat
        }
    }
}

/// The number of erased nodes of the code.
pub open spec fn erased_count(p: EncodeParams, e: Set<usize>) -> nat {
    erased_upto(e, p.nodes())
}

/// The companion layer by the modular formula:
/// `(z + (x - z_y) · q^(t-1-y)) mod alpha`. Where `z_y` is the entry of the
/// plane vector of `z` for y-section `y`, this is `z` with that entry
/// replaced by `x`.
pub fn get_companion_layer(params: &DecodeParams, z: usize, x: usize, y: usize, z_y: usize) -> (r:
    usize)
    requires
        params.wf(),
        y < params.t,
        x < params.q,
        z_y < params.q,
        z < params.sub_chunk_no,
    ensures
        r == companion_of(
            z as nat,
            x as nat,
            z_y as nat,
            pow(params.q as int, (params.t - 1 - y) as nat) as nat,
            params.sub_chunk_no as nat,
        ),
        r < params.sub_chunk_no,
        z_y == params.plane_digit(z as nat, y as nat) ==> r == params.companion_layer(
            (y * params.q + x) as nat,
            z as nat,
        ),
{
    let ghost i = (params.t - 1 - y) as nat;
    proof {
        params.lemma_wf();
        lemma_pow_monotonic(params.q as nat, i, (params.t - 1) as nat);
        lemma_pow_step(params.q as nat, (params.t - 1) as nat);
        lemma_pow_step(params.q as nat, i);
    }
    let alpha = params.sub_chunk_no;
    let weight = power(params.q, params.t - 1 - y);
    proof {
        assert(params.q * weight <= alpha) by (nonlinear_arith)
            requires
                alpha == params.q * pow(params.q as int, (params.t - 1) as nat),
                weight <= pow(params.q as int, (params.t - 1) as nat),
                params.q >= 0,
        ;
    }
    let r = if x >= z_y {
        let diff = x - z_y;
        assert(diff * weight <= alpha) by (nonlinear_arith)
            requires
                params.q * weight <= alpha,
                diff < params.q,
                weight >= 0,
        ;
        let a: u128 = z as u128 + (diff as u128) * (weight as u128);
        assert(a == z + (x - z_y) * weight);
        (a % (alpha as u128)) as usize
    } else {
        let diff = z_y - x;
        assert(diff * weight <= alpha) by (nonlinear_arith)
            requires
                params.q * weight <= alpha,
                diff < params.q,
                weight >= 0,
        ;
        let a: u128 = z as u128 + alpha as u128 - (diff as u128) * (weight as u128);
        proof {
            let b = z + (x - z_y) * weight;
            assert(a == alpha + b) by (nonlinear_arith)
                requires
                    a == z + alpha - diff * weight,
                    diff == z_y - x,
                    b == z + (x - z_y) * weight,
            ;
            vstd::arithmetic::div_mod::lemma_mod_add_multiples_vanish(b, alpha as int);
        }
        (a % (alpha as u128)) as usize
    };
    proof {
        if z_y == params.plane_digit(z as nat, y as nat) {
            lemma_companion_is_with_digit(z as nat, params.q as nat, params.t as nat, i, x as nat);
            crate::coords::lemma_node_coordinates(0, x as nat, y as nat, params.q as nat);
        }
    }
    r
}

/// Fills `order[z]` with the intersection score of layer `z`, for every
/// layer.
pub fn set_planes_sequential_decoding_order(
    params: &DecodeParams,
    order: &mut Vec<usize>,
    erasures: &BTreeSet<usize>,
)
    requires
        params.wf(),
        old(order)@.len() == params.sub_chunk_no,
    ensures
        final(order)@.len() == params.sub_chunk_no,
        forall|z: int|
            0 <= z < params.sub_chunk_no ==> final(order)@[z] == score(*params, erasures@, z as nat),
{
    proof {
        params.lemma_wf();
    }
    let mut z: usize = 0;
    while z < params.sub_chunk_no
        invariant
            params.wf(),
            z <= params.sub_chunk_no,
            order@.len() == params.sub_chunk_no,
            forall|l: int| 0 <= l < z ==> order@[l] == score(*params, erasures@, l as nat),
        decreases params.sub_chunk_no - z,
    {
        let s = plane_score(params, erasures, z);
        order[z] = s;
        z += 1;
    }
}

/// The intersection score of layer `z`.
pub fn plane_score(params: &DecodeParams, erasures: &BTreeSet<usize>, z: usize) -> (r: usize)
    requires
        params.wf(),
    ensures
        r == score(*params, erasures@, z as nat),
        r <= params.t,
{
    proof {
        params.lemma_wf();
    }
    let z_vec = get_plane_vector(z, params.t, params.q);
    let mut count: usize = 0;
    let mut y: usize = 0;
    while y < params.t
        invariant
            params.wf(),
            y <= params.t,
            params.q * params.t == params.nodes(),
            params.nodes() <= usize::MAX,
            z_vec@.len() == params.t,
            forall|j: int|
                0 <= j < params.t ==> z_vec@[j] == digit(
                    z as nat,
                    params.q as nat,
                    (params.t - 1 - j) as nat,
                ),
            count == score_upto(*params, erasures@, z as nat, y as nat),
            count <= y,
        decreases params.t - y,
    {
        proof {
            crate::digits::lemma_digit_bound(
                z as nat,
                params.q as nat,
                (params.t - 1 - y) as nat,
            );
            assert(y * params.q + z_vec@[y as int] < params.q * params.t) by (nonlinear_arith)
                requires
                    y < params.t,
                    z_vec@[y as int] < params.q,
            ;
            assert(0 <= y * params.q) by (nonlinear_arith)
                requires
                    0 <= y,
                    0 <= params.q,
            ;
        }
        let node = y * params.q + z_vec[y];
        if erasures.contains(&node) {
            count += 1;
        }
        y += 1;
    }
    count
}

/// The largest intersection score that a layer has: the number of
/// y-sections with an erased node.
pub fn get_max_iscore(params: &DecodeParams, erased_chunks: &BTreeSet<usize>) -> (r: usize)
    requires
        params.wf(),
    ensures
        r == sections_hit(*params, erased_chunks@),
        r <= params.t,
{
    proof {
        params.lemma_wf();
    }
    let mut iscore: usize = 0;
    let mut y: usize = 0;
    while y < params.t
        invariant
            params.wf(),
            y <= params.t,
            params.q * params.t == params.nodes(),
            params.nodes() <= usize::MAX,
            iscore == sections_hit_upto(*params, erased_chunks@, y as nat),
            iscore <= y,
        decreases params.t - y,
    {
        let mut hit = false;
        let mut x: usize = 0;
        proof {
            assert(y * params.q + params.q <= params.q * params.t) by (nonlinear_arith)
                requires
                    y < params.t,
                    params.q >= 0,
            ;
            assert(0 <= y * params.q) by (nonlinear_arith)
                requires
                    0 <= y,
                    0 <= params.q,
            ;
        }
        while x < params.q
            invariant
                x <= params.q,
                y * params.q + params.q <= usize::MAX,
                0 <= y * params.q,
                hit <==> exists|a: nat|
                    a < x && #[trigger] erased_chunks@.contains((y * params.q + a) as usize),
            decreases params.q - x,
        {
            let node = y * params.q + x;
            if erased_chunks.contains(&node) {
                hit = true;
                assert(erased_chunks@.contains((y * params.q + x as nat) as usize));
            }
            x += 1;
        }
        assert(hit == section_hit(*params, erased_chunks@, y as nat));
        if hit {
            iscore += 1;
        }
        y += 1;
    }
    iscore
}

/// The node at `(x, y)` is a node of the code.
pub proof fn lemma_node_in_range(p: EncodeParams, x: nat, y: nat)
    requires
        p.wf(),
        x < p.q,
        y < p.t,
    ensures
        y * p.q + x < p.nodes(),
        0 <= y * p.q,
        ((y * p.q + x) as nat) / (p.q as nat) == y,
        ((y * p.q + x) as nat) % (p.q as nat) == x,
        p.nodes() <= usize::MAX,
{
    p.lemma_wf();
    assert(y * p.q + x < p.q * p.t) by (nonlinear_arith)
        requires
            x < p.q,
            y < p.t,
    ;
    assert(0 <= y * p.q) by (nonlinear_arith)
        requires
            0 <= y,
            0 <= p.q,
    ;
    crate::coords::lemma_node_coordinates(0, x, y, p.q as nat);
}

/// Copies the cell `(node, z)` out of a buffer.
pub fn get_cell(
    params: &DecodeParams,
    buf: &Vec<Vec<u8>>,
    node: usize,
    z: usize,
    sub_chunk_size: usize,
) -> (out: Vec<u8>)
    requires
        buffer_ok(*params, sub_chunk_size as nat, buf),
        node < params.nodes(),
        z < params.sub_chunk_no,
    ensures
        out@ == cell(rows(buf), node as int, z as int, sub_chunk_size as nat),
        out@.len() == sub_chunk_size,
{
    proof {
        lemma_cell_bounds(z as nat, params.sub_chunk_no as nat, sub_chunk_size as nat);
    }
    load(&buf[node], z, sub_chunk_size)
}

/// Overwrites the cell `(node, z)` of a buffer; every other cell stays.
pub fn put_cell(
    params: &DecodeParams,
    buf: &mut Vec<Vec<u8>>,
    node: usize,
    z: usize,
    sub_chunk_size: usize,
    data: &Vec<u8>,
)
    requires
        buffer_ok(*params, sub_chunk_size as nat, old(buf)),
        node < params.nodes(),
        z < params.sub_chunk_no,
        data@.len() == sub_chunk_size,
    ensures
        buffer_ok(*params, sub_chunk_size as nat, final(buf)),
        cell(rows(final(buf)), node as int, z as int, sub_chunk_size as nat) == data@,
        forall|n: int, l: int|
            0 <= n < params.nodes() && 0 <= l < params.sub_chunk_no && (n != node || l != z)
                ==> #[trigger] cell(rows(final(buf)), n, l, sub_chunk_size as nat) == cell(
                rows(old(buf)),
                n,
                l,
                sub_chunk_size as nat,
            ),
        forall|n: int| 0 <= n < params.nodes() && n != node ==> final(buf)@[n] == old(buf)@[n],
{
    proof {
        lemma_cell_bounds(z as nat, params.sub_chunk_no as nat, sub_chunk_size as nat);
        lemma_all_cell_bounds(*params, sub_chunk_size as nat);
    }
    store(buf, node, z, sub_chunk_size, data);
    proof {
        assert forall|n: int, l: int|
            0 <= n < params.nodes() && 0 <= l < params.sub_chunk_no && (n != node || l
                != z) implies #[trigger] cell(rows(buf), n, l, sub_chunk_size as nat) == cell(
            rows(old(buf)),
            n,
            l,
            sub_chunk_size as nat,
        ) by {
            assert(old(buf)@[n]@.len() == params.sub_chunk_no * sub_chunk_size);
            assert(in_row(
                l,
                sub_chunk_size as nat,
                (params.sub_chunk_no * sub_chunk_size) as nat,
            ));
        }
    }
}

/// PRT on one pair of vertices: the uncoupled values of the vertex
/// `(x, y, z)` and of its companion, from the coupled values of both.
pub fn get_uncoupled_from_coupled(
    params: &DecodeParams,
    chunks: &Vec<Vec<u8>>,
    u_buf: &mut Vec<Vec<u8>>,
    x: usize,
    y: usize,
    z: usize,
    z_y: usize,
    z_sw: usize,
    sub_chunk_size: usize,
)
    requires
        params.wf(),
        buffer_ok(*params, sub_chunk_size as nat, chunks),
        buffer_ok(*params, sub_chunk_size as nat, old(u_buf)),
        x < params.q,
        z_y < params.q,
        x != z_y,
        y < params.t,
        z < params.sub_chunk_no,
        z_sw < params.sub_chunk_no,
    ensures
        buffer_ok(*params, sub_chunk_size as nat, final(u_buf)),
        cell(rows(final(u_buf)), y * params.q + x, z as int, sub_chunk_size as nat) == mix(
            cell(rows(chunks), y * params.q + x, z as int, sub_chunk_size as nat),
            cell(rows(chunks), y * params.q + z_y, z_sw as int, sub_chunk_size as nat),
        ),
        cell(rows(final(u_buf)), y * params.q + z_y, z_sw as int, sub_chunk_size as nat) == mix(
            cell(rows(chunks), y * params.q + z_y, z_sw as int, sub_chunk_size as nat),
            cell(rows(chunks), y * params.q + x, z as int, sub_chunk_size as nat),
        ),
        forall|n: int, l: int|
            0 <= n < params.nodes() && 0 <= l < params.sub_chunk_no && !(n == y * params.q + x && l
                == z) && !(n == y * params.q + z_y && l == z_sw) ==> #[trigger] cell(
                rows(final(u_buf)),
                n,
                l,
                sub_chunk_size as nat,
            ) == cell(rows(old(u_buf)), n, l, sub_chunk_size as nat),
{
    proof {
        lemma_node_in_range(*params, x as nat, y as nat);
        lemma_node_in_range(*params, z_y as nat, y as nat);
        lemma_cell_bounds(z as nat, params.sub_chunk_no as nat, sub_chunk_size as nat);
        lemma_cell_bounds(z_sw as nat, params.sub_chunk_no as nat, sub_chunk_size as nat);
        lemma_all_cell_bounds(*params, sub_chunk_size as nat);
    }
    let node_xy = y * params.q + x;
    let node_sw = y * params.q + z_y;
    let c_xy = get_cell(params, chunks, node_xy, z, sub_chunk_size);
    let c_sw = get_cell(params, chunks, node_sw, z_sw, sub_chunk_size);
    let (u_xy, u_sw) = if x < z_y {
        prt_compute_both(c_xy.as_slice(), c_sw.as_slice())
    } else {
        let (u_sw, u_xy) = prt_compute_both(c_sw.as_slice(), c_xy.as_slice());
        (u_xy, u_sw)
    };
    put_cell(params, u_buf, node_xy, z, sub_chunk_size, &u_xy);
    let ghost mid = rows(u_buf);
    put_cell(params, u_buf, node_sw, z_sw, sub_chunk_size, &u_sw);
    assert(cell(rows(u_buf), node_xy as int, z as int, sub_chunk_size as nat) == cell(
        mid,
        node_xy as int,
        z as int,
        sub_chunk_size as nat,
    ));
}

/// Every layer of a row ends within the row.
pub proof fn lemma_all_cell_bounds(p: EncodeParams, size: nat)
    ensures
        forall|l: int|
            0 <= l < p.sub_chunk_no ==> #[trigger] in_row(l, size, (p.sub_chunk_no * size) as nat),
{
    assert forall|l: int| 0 <= l < p.sub_chunk_no implies #[trigger] in_row(
        l,
        size,
        (p.sub_chunk_no * size) as nat,
    ) by {
        lemma_cell_bounds(l as nat, p.sub_chunk_no as nat, size);
    }
}

/// Recovery of a coupled value whose companion is not erased:
/// `C = U + γ·C*`.
pub fn recover_type1_erasure(
    params: &DecodeParams,
    chunks: &mut Vec<Vec<u8>>,
    u_buf: &Vec<Vec<u8>>,
    x: usize,
    y: usize,
    z: usize,
    z_y: usize,
    z_sw: usize,
    sub_chunk_size: usize,
)
    requires
        params.wf(),
        buffer_ok(*params, sub_chunk_size as nat, old(chunks)),
        buffer_ok(*params, sub_chunk_size as nat, u_buf),
        x < params.q,
        z_y < params.q,
        x != z_y,
        y < params.t,
        z < params.sub_chunk_no,
        z_sw < params.sub_chunk_no,
    ensures
        buffer_ok(*params, sub_chunk_size as nat, final(chunks)),
        cell(rows(final(chunks)), y * params.q + x, z as int, sub_chunk_size as nat) == mix(
            cell(rows(u_buf), y * params.q + x, z as int, sub_chunk_size as nat),
            cell(rows(old(chunks)), y * params.q + z_y, z_sw as int, sub_chunk_size as nat),
        ),
        forall|n: int, l: int|
            0 <= n < params.nodes() && 0 <= l < params.sub_chunk_no && !(n == y * params.q + x && l
                == z) ==> #[trigger] cell(rows(final(chunks)), n, l, sub_chunk_size as nat) == cell(
                rows(old(chunks)),
                n,
                l,
                sub_chunk_size as nat,
            ),
        forall|n: int|
            0 <= n < params.nodes() && n != y * params.q + x ==> final(chunks)@[n] == old(chunks)@[n],
{
    proof {
        lemma_node_in_range(*params, x as nat, y as nat);
        lemma_node_in_range(*params, z_y as nat, y as nat);
        lemma_cell_bounds(z as nat, params.sub_chunk_no as nat, sub_chunk_size as nat);
        lemma_cell_bounds(z_sw as nat, params.sub_chunk_no as nat, sub_chunk_size as nat);
        lemma_all_cell_bounds(*params, sub_chunk_size as nat);
    }
    let node_xy = y * params.q + x;
    let node_sw = y * params.q + z_y;
    let c_sw = get_cell(params, chunks, node_sw, z_sw, sub_chunk_size);
    let u_xy = get_cell(params, u_buf, node_xy, z, sub_chunk_size);
    let c_xy = compute_c_from_u_and_cstar(u_xy.as_slice(), c_sw.as_slice());
    put_cell(params, chunks, node_xy, z, sub_chunk_size, &c_xy);
}

/// PFT on one pair of vertices: the coupled values of the vertex
/// `(x, y, z)` and of its companion, from the uncoupled values of both.
pub fn get_coupled_from_uncoupled(
    params: &DecodeParams,
    chunks: &mut Vec<Vec<u8>>,
    u_buf: &Vec<Vec<u8>>,
    x: usize,
    y: usize,
    z: usize,
    z_y: usize,
    z_sw: usize,
    sub_chunk_size: usize,
)
    requires
        params.wf(),
        buffer_ok(*params, sub_chunk_size as nat, old(chunks)),
        buffer_ok(*params, sub_chunk_size as nat, u_buf),
        x < params.q,
        z_y < params.q,
        x != z_y,
        y < params.t,
        z < params.sub_chunk_no,
        z_sw < params.sub_chunk_no,
    ensures
        buffer_ok(*params, sub_chunk_size as nat, final(chunks)),
        cell(rows(final(chunks)), y * params.q + x, z as int, sub_chunk_size as nat) == unmix(
            cell(rows(u_buf), y * params.q + x, z as int, sub_chunk_size as nat),
            cell(rows(u_buf), y * params.q + z_y, z_sw as int, sub_chunk_size as nat),
        ),
        cell(rows(final(chunks)), y * params.q + z_y, z_sw as int, sub_chunk_size as nat) == unmix(
            cell(rows(u_buf), y * params.q + z_y, z_sw as int, sub_chunk_size as nat),
            cell(rows(u_buf), y * params.q + x, z as int, sub_chunk_size as nat),
        ),
        forall|n: int, l: int|
            0 <= n < params.nodes() && 0 <= l < params.sub_chunk_no && !(n == y * params.q + x && l
                == z) && !(n == y * params.q + z_y && l == z_sw) ==> #[trigger] cell(
                rows(final(chunks)),
                n,
                l,
                sub_chunk_size as nat,
            ) == cell(rows(old(chunks)), n, l, sub_chunk_size as nat),
        forall|n: int|
            0 <= n < params.nodes() && n != y * params.q + x && n != y * params.q + z_y
                ==> final(chunks)@[n] == old(chunks)@[n],
{
    proof {
        lemma_node_in_range(*params, x as nat, y as nat);
        lemma_node_in_range(*params, z_y as nat, y as nat);
        lemma_cell_bounds(z as nat, params.sub_chunk_no as nat, sub_chunk_size as nat);
        lemma_cell_bounds(z_sw as nat, params.sub_chunk_no as nat, sub_chunk_size as nat);
        lemma_all_cell_bounds(*params, sub_chunk_size as nat);
    }
    let node_xy = y * params.q + x;
    let node_sw = y * params.q + z_y;
    let u_xy = get_cell(params, u_buf, node_xy, z, sub_chunk_size);
    let u_sw = get_cell(params, u_buf, node_sw, z_sw, sub_chunk_size);
    let (c_xy, c_sw) = if x < z_y {
        pft_compute_both(u_xy.as_slice(), u_sw.as_slice())
    } else {
        let (c_sw, c_xy) = pft_compute_both(u_sw.as_slice(), u_xy.as_slice());
        (c_xy, c_sw)
    };
    put_cell(params, chunks, node_xy, z, sub_chunk_size, &c_xy);
    let ghost mid = rows(chunks);
    put_cell(params, chunks, node_sw, z_sw, sub_chunk_size, &c_sw);
    assert(cell(rows(chunks), node_xy as int, z as int, sub_chunk_size as nat) == cell(
        mid,
        node_xy as int,
        z as int,
        sub_chunk_size as nat,
    ));
}

/// `C* = (U + C) / γ`: the companion's coupled value from a node's own
/// coupled and uncoupled values, as the repair needs it.
pub fn compute_cstar_from_c_and_u(c_helper: &[u8], u_helper: &[u8]) -> (r: Vec<u8>)
    requires
        c_helper@.len() == u_helper@.len(),
    ensures
        r@ == cstar_of_c_and_u(c_helper@, u_helper@),
{
    cstar_from_sum(c_helper, u_helper)
}

/// Layer `z` of a buffer with the sub-chunks of the erased nodes left out.
pub open spec fn masked_layer(
    p: EncodeParams,
    size: nat,
    b: Seq<Seq<u8>>,
    e: Set<usize>,
    z: int,
) -> Seq<Option<Seq<u8>>> {
    Seq::new(
        p.nodes(),
        |n: int|
            if e.contains(n as usize) {
                None
            } else {
                Some(cell(b, n, z, size))
            },
    )
}

/// What phase B makes of layer `z` of a buffer: with no node erased, the
/// layer as it is; with a data node erased, what the scalar code
/// reconstructs from the sub-chunks of the nodes that are not erased;
/// with parity nodes erased alone, the parity of the data for them.
pub open spec fn recovered_layer(
    p: EncodeParams,
    size: nat,
    b: Seq<Seq<u8>>,
    e: Set<usize>,
    z: int,
) -> Seq<Seq<u8>> {
    if erased_count(p, e) == 0 {
        layer(b, z, size, p.nodes())
    } else if exists|n: usize| n < p.original_count && e.contains(n) {
        rs_reconstructed(masked_layer(p, size, b, e, z), p.original_count as nat)
    } else {
        Seq::new(
            p.nodes(),
            |n: int|
                if e.contains(n as usize) {
                    rs_parity(
                        layer(b, z, size, p.original_count as nat),
                        p.m as nat,
                    )[n - p.original_count]
                } else {
                    cell(b, n, z, size)
                },
        )
    }
}

/// The number of erased nodes below `upto`.
pub fn count_erased(erased: &BTreeSet<usize>, upto: usize) -> (c: usize)
    ensures
        c == erased_upto(erased@, upto as nat),
        c <= upto,
{
    let mut c: usize = 0;
    let mut i: usize = 0;
    while i < upto
        invariant
            i <= upto,
            c == erased_upto(erased@, i as nat),
            c <= i,
        decreases upto - i,
    {
        if erased.contains(&i) {
            c += 1;
        }
        i += 1;
    }
    c
}

/// Whether some node from `from` up to `to` is erased.
pub fn any_erased(erased: &BTreeSet<usize>, from: usize, to: usize) -> (r: bool)
    ensures
        r <==> exists|n: usize| from <= n < to && erased@.contains(n),
{
    let mut i: usize = from;
    while i < to
        invariant
            from <= i,
            forall|n: usize| from <= n < i && n < to ==> !erased@.contains(n),
        decreases to - i,
    {
        if erased.contains(&i) {
            assert(erased@.contains(i));
            return true;
        }
        i += 1;
    }
    false
}

/// The count of present shards reads only the shards it counts.
proof fn lemma_count_present_prefix(a: Seq<Option<Seq<u8>>>, b: Seq<Option<Seq<u8>>>, upto: nat)
    requires
        forall|i: int| 0 <= i < upto ==> a[i] == b[i],
    ensures
        count_present(a, upto) == count_present(b, upto),
    decreases upto,
{
    if upto > 0 {
        lemma_count_present_prefix(a, b, (upto - 1) as nat);
    }
}

/// Phase B: decodes layer `z` of the uncoupled buffer with the scalar
/// code. The sub-chunks of the erased nodes are recomputed from those of
/// the others: by reconstruction where a data node is erased, by encoding
/// where only parity nodes are.
pub fn decode_uncoupled_layer(
    params: &DecodeParams,
    erased_chunks: &BTreeSet<usize>,
    z: usize,
    sub_chunk_size: usize,
    u_buf: &mut Vec<Vec<u8>>,
    rs: &Codec,
) -> (r: Result<(), ClayError>)
    requires
        params.wf(),
        buffer_ok(*params, sub_chunk_size as nat, old(u_buf)),
        z < params.sub_chunk_no,
        sub_chunk_size >= 1,
        codec_data_shards(*rs) == params.original_count,
        codec_parity_shards(*rs) == params.recovery_count,
    ensures
        buffer_ok(*params, sub_chunk_size as nat, final(u_buf)),
        forall|n: int, l: int|
            0 <= n < params.nodes() && 0 <= l < params.sub_chunk_no && (l != z
                || !erased_chunks@.contains(n as usize)) ==> #[trigger] cell(
                rows(final(u_buf)),
                n,
                l,
                sub_chunk_size as nat,
            ) == cell(rows(old(u_buf)), n, l, sub_chunk_size as nat),
        erased_count(*params, erased_chunks@) > params.m ==> r == Err::<(), ClayError>(
            ClayError::TooManyErasures {
                max: params.m,
                actual: erased_count(*params, erased_chunks@) as usize,
            },
        ) && rows(final(u_buf)) == rows(old(u_buf)),
        erased_count(*params, erased_chunks@) <= params.m ==> r is Ok,
        r is Ok ==> forall|word: Seq<Seq<u8>>|
            #[trigger] layer_agrees(
                *params,
                sub_chunk_size as nat,
                rows(old(u_buf)),
                erased_chunks@,
                z as int,
                word,
            ) && is_layer_codeword(*params, word) ==> layer(
                rows(final(u_buf)),
                z as int,
                sub_chunk_size as nat,
                params.nodes(),
            ) == word,
        r is Ok && parity_erased(*params, erased_chunks@) ==> is_layer_codeword(
            *params,
            layer(rows(final(u_buf)), z as int, sub_chunk_size as nat, params.nodes()),
        ),
        r is Ok ==> layer(rows(final(u_buf)), z as int, sub_chunk_size as nat, params.nodes())
            == recovered_layer(
            *params,
            sub_chunk_size as nat,
            rows(old(u_buf)),
            erased_chunks@,
            z as int,
        ),
{
    proof {
        params.lemma_wf();
        lemma_node_in_range(*params, 0, 0);
        lemma_all_cell_bounds(*params, sub_chunk_size as nat);
        lemma_cell_bounds(z as nat, params.sub_chunk_no as nat, sub_chunk_size as nat);
    }
    let total_nodes = params.q * params.t;
    let parity_start = params.original_count;
    let ghost size = sub_chunk_size as nat;
    let ghost e = erased_chunks@;
    let ghost before = rows(u_buf);
    let count = count_erased(erased_chunks, total_nodes);
    if count > params.m {
        return Err(ClayError::TooManyErasures { max: params.m, actual: count });
    }
    if count == 0 {
        proof {
            lemma_none_erased(e, total_nodes as nat);
            assert(!e.contains(parity_start));
            assert(recovered_layer(*params, size, before, e, z as int) == layer(
                before,
                z as int,
                size,
                params.nodes(),
            ));
            assert forall|word: Seq<Seq<u8>>| #[trigger]
                layer_agrees(*params, size, before, e, z as int, word) implies layer(
                before,
                z as int,
                size,
                params.nodes(),
            ) == word by {
                assert(layer(before, z as int, size, params.nodes()) =~= word);
            }
        }
        return Ok(());
    }
    let has_erased_originals = any_erased(erased_chunks, 0, parity_start);
    if has_erased_originals {
        proof {
            let n = choose|n: usize| 0 <= n < parity_start && e.contains(n);
            assert(!parity_erased(*params, e));
        }
        let mut shards: Vec<Option<Vec<u8>>> = Vec::new();
        let mut i: usize = 0;
        while i < total_nodes
            invariant
                i <= total_nodes,
                total_nodes == params.nodes(),
                buffer_ok(*params, size, u_buf),
                size == sub_chunk_size,
                z * size + size <= params.sub_chunk_no * size,
                shards@.len() == i,
                forall|j: int| 0 <= j < i ==> ((#[trigger] shards@[j]) is None <==> e.contains(j as usize)),
                forall|j: int|
                    0 <= j < i && (#[trigger] shards@[j]) is Some ==> shards@[j]->0@ == cell(
                        rows(u_buf),
                        j,
                        z as int,
                        size,
                    ) && shards@[j]->0@.len() == size,
                z < params.sub_chunk_no,
                count_present(opt_rows(&shards), i as nat) + erased_upto(e, i as nat) == i,
                e == erased_chunks@,
            decreases total_nodes - i,
        {
            let ghost prev = opt_rows(&shards);
            if erased_chunks.contains(&i) {
                shards.push(None);
            } else {
                let data = get_cell(params, u_buf, i, z, sub_chunk_size);
                shards.push(Some(data));
            }
            proof {
                lemma_count_present_prefix(prev, opt_rows(&shards), i as nat);
            }
            i += 1;
        }
        let ghost offered = opt_rows(&shards);
        proof {
            assert forall|a: int, b: int|
                0 <= a < total_nodes && 0 <= b < total_nodes && (#[trigger] offered[a]) is Some && (
                #[trigger] offered[b]) is Some implies offered[a]->0.len() == offered[b]->0.len() by {
                assert(shards@[a] is Some && shards@[b] is Some);
            }
            assert forall|a: int| 0 <= a < total_nodes && (#[trigger] offered[a]) is Some implies
                offered[a]->0.len() > 0 by {
                assert(shards@[a] is Some);
            }
        }
        match codec_reconstruct(rs, &mut shards) {
            Err(err) => {
                return Err(ClayError::ReconstructionFailed(codec_error_text(&err)));
            },
            Ok(()) => {},
        }
        let ghost restored = opt_rows(&shards);
        proof {
            lemma_some_present(e, total_nodes as nat);
            let witness = choose|n: usize| n < total_nodes && !e.contains(n);
            assert(offered[witness as int] is Some);
            assert(shards@[witness as int]->0@.len() == size);
            assert forall|j: int| 0 <= j < total_nodes implies (#[trigger] shards@[j])->0@.len()
                == size by {
                assert(shards@[j]->0@.len() == shards@[witness as int]->0@.len());
            }
        }
        let mut i: usize = 0;
        while i < total_nodes
            invariant
                i <= total_nodes,
                total_nodes == params.nodes(),
                buffer_ok(*params, size, u_buf),
                size == sub_chunk_size,
                z < params.sub_chunk_no,
                z * size + size <= params.sub_chunk_no * size,
                shards@.len() == total_nodes,
                restored == opt_rows(&shards),
                forall|j: int| 0 <= j < total_nodes ==> (#[trigger] shards@[j]) is Some,
                forall|j: int| 0 <= j < total_nodes ==> (#[trigger] shards@[j])->0@.len() == size,
                forall|j: int|
                    0 <= j < total_nodes && !e.contains(j as usize) ==> (#[trigger] shards@[j])->0@
                        == cell(before, j, z as int, size),
                forall|n: int, l: int|
                    0 <= n < params.nodes() && 0 <= l < params.sub_chunk_no && (l != z
                        || !e.contains(n as usize) || n >= i) ==> #[trigger] cell(
                        rows(u_buf),
                        n,
                        l,
                        size,
                    ) == cell(before, n, l, size),
                forall|n: int|
                    0 <= n < i && e.contains(n as usize) ==> #[trigger] cell(
                        rows(u_buf),
                        n,
                        z as int,
                        size,
                    ) == shards@[n]->0@,
                e == erased_chunks@,
            decreases total_nodes - i,
        {
            proof {
                lemma_all_cell_bounds(*params, size);
            }
            if erased_chunks.contains(&i) {
                match &shards[i] {
                    Some(data) => {
                        put_cell(params, u_buf, i, z, sub_chunk_size, data);
                    },
                    None => {},
                }
            }
            i += 1;
        }
        proof {
            let after = rows(u_buf);
            assert(offered =~= masked_layer(*params, size, before, e, z as int));
            let rec = rs_reconstructed(offered, params.original_count as nat);
            assert(restored == rec.map_values(|s: Seq<u8>| Some(s)));
            assert(rec.len() == params.nodes()) by {
                assert(rec.map_values(|s: Seq<u8>| Some(s)).len() == rec.len());
            }
            assert forall|n: int| 0 <= n < params.nodes() implies layer(
                after,
                z as int,
                size,
                params.nodes(),
            )[n] == rec[n] by {
                assert(restored[n] == rec.map_values(|s: Seq<u8>| Some(s))[n]);
                assert(restored[n] == Some(shards@[n]->0@));
                if e.contains(n as usize) {
                    assert(cell(after, n, z as int, size) == shards@[n]->0@);
                } else {
                    assert(cell(after, n, z as int, size) == cell(before, n, z as int, size));
                }
            }
            assert(layer(after, z as int, size, params.nodes()) =~= rec);
            assert(erased_count(*params, e) > 0);
            assert(exists|n: usize| n < params.original_count && e.contains(n));
            assert forall|word: Seq<Seq<u8>>| #[trigger]
                layer_agrees(*params, size, before, e, z as int, word) && is_layer_codeword(
                    *params,
                    word,
                ) implies layer(after, z as int, size, params.nodes()) == word by {
                let data = word.subrange(0, params.original_count as int);
                let cw = crate::codec::rs_codeword(data, params.m as nat);
                assert(cw =~= word);
                assert(crate::codec::shards_encodable(
                    cw,
                    (params.original_count + params.recovery_count) as nat,
                ));
                assert(crate::codec::present_agree(offered, cw)) by {
                    assert forall|j: int| 0 <= j < offered.len() && (#[trigger] offered[j]) is Some implies
                        offered[j]->0 == cw[j] by {
                        assert(!e.contains(j as usize));
                    }
                }
                assert(crate::codec::present_agree(restored, cw));
                assert forall|n: int| 0 <= n < params.nodes() implies
                    cell(after, n, z as int, size) == word[n] by {
                    assert(restored[n] is Some);
                    if e.contains(n as usize) {
                        assert(cell(after, n, z as int, size) == shards@[n]->0@);
                    } else {
                        assert(cell(after, n, z as int, size) == cell(before, n, z as int, size));
                    }
                }
                assert(layer(after, z as int, size, params.nodes()) =~= word);
            }
        }
    } else {
        let mut shards: Vec<Vec<u8>> = Vec::new();
        let mut i: usize = 0;
        while i < total_nodes
            invariant
                i <= total_nodes,
                total_nodes == params.nodes(),
                buffer_ok(*params, size, u_buf),
                size == sub_chunk_size,
                z * size + size <= params.sub_chunk_no * size,
                shards@.len() == i,
                z < params.sub_chunk_no,
                forall|j: int|
                    0 <= j < i ==> (#[trigger] shards@[j])@ == cell(rows(u_buf), j, z as int, size)
                        && shards@[j]@.len() == size,
            decreases total_nodes - i,
        {
            let data = get_cell(params, u_buf, i, z, sub_chunk_size);
            shards.push(data);
            i += 1;
        }
        let ghost offered = rows(&shards);
        proof {
            assert(crate::codec::shards_encodable(
                offered,
                (params.original_count + params.recovery_count) as nat,
            ));
        }
        match codec_encode(rs, &mut shards) {
            Err(err) => {
                return Err(ClayError::ReconstructionFailed(codec_error_text(&err)));
            },
            Ok(()) => {},
        }
        let ghost coded = rows(&shards);
        let ghost data = offered.subrange(0, parity_start as int);
        proof {
            assert(coded == data + rs_parity(data, params.m as nat));
            assert(data =~= layer(before, z as int, size, parity_start as nat));
        }
        let mut i: usize = parity_start;
        while i < total_nodes
            invariant
                parity_start <= i <= total_nodes,
                parity_start == params.original_count,
                total_nodes == params.nodes(),
                buffer_ok(*params, size, u_buf),
                size == sub_chunk_size,
                z < params.sub_chunk_no,
                z * size + size <= params.sub_chunk_no * size,
                shards@.len() == total_nodes,
                coded == rows(&shards),
                forall|j: int| 0 <= j < total_nodes ==> (#[trigger] shards@[j])@.len() == size,
                forall|n: int, l: int|
                    0 <= n < params.nodes() && 0 <= l < params.sub_chunk_no && (l != z
                        || !e.contains(n as usize) || n >= i) ==> #[trigger] cell(
                        rows(u_buf),
                        n,
                        l,
                        size,
                    ) == cell(before, n, l, size),
                forall|n: int|
                    parity_start <= n < i && e.contains(n as usize) ==> #[trigger] cell(
                        rows(u_buf),
                        n,
                        z as int,
                        size,
                    ) == shards@[n]@,
                e == erased_chunks@,
                forall|n: usize| n < parity_start ==> !e.contains(n),
            decreases total_nodes - i,
        {
            proof {
                lemma_all_cell_bounds(*params, size);
            }
            if erased_chunks.contains(&i) {
                put_cell(params, u_buf, i, z, sub_chunk_size, &shards[i]);
            }
            i += 1;
        }
        proof {
            let after = rows(u_buf);
            assert(!(exists|n: usize| n < params.original_count && e.contains(n)));
            assert(erased_count(*params, e) > 0);
            assert forall|n: int| 0 <= n < params.nodes() implies layer(
                after,
                z as int,
                size,
                params.nodes(),
            )[n] == recovered_layer(*params, size, before, e, z as int)[n] by {
                if e.contains(n as usize) {
                    assert(cell(after, n, z as int, size) == shards@[n]@);
                    assert(coded[n] == shards@[n]@);
                } else {
                    assert(cell(after, n, z as int, size) == cell(before, n, z as int, size));
                }
            }
            assert(layer(after, z as int, size, params.nodes()) =~= recovered_layer(
                *params,
                size,
                before,
                e,
                z as int,
            ));
            let parity = rs_parity(data, params.m as nat);
            if parity_erased(*params, e) {
                let lay = layer(after, z as int, size, params.nodes());
                assert forall|n: int| 0 <= n < params.nodes() implies lay[n] == coded[n] by {
                    assert(coded[n] == shards@[n]@);
                    if e.contains(n as usize) {
                        assert(cell(after, n, z as int, size) == shards@[n]@);
                    } else {
                        assert(cell(after, n, z as int, size) == cell(before, n, z as int, size));
                        assert(offered[n] == cell(before, n, z as int, size));
                        assert(coded[n] == data[n]);
                    }
                }
                assert(lay =~= coded);
                assert(coded.subrange(0, params.original_count as int) =~= data);
                assert(coded.subrange(params.original_count as int, params.nodes() as int)
                    =~= parity);
            }
            assert forall|word: Seq<Seq<u8>>| #[trigger]
                layer_agrees(*params, size, before, e, z as int, word) && is_layer_codeword(
                    *params,
                    word,
                ) implies layer(after, z as int, size, params.nodes()) == word by {
                let wdata = word.subrange(0, params.original_count as int);
                assert(wdata =~= data) by {
                    assert forall|j: int| 0 <= j < parity_start implies wdata[j] == data[j] by {
                        assert(!e.contains(j as usize));
                        assert(word[j] == cell(before, j, z as int, size));
                    }
                }
                assert forall|n: int| 0 <= n < params.nodes() implies
                    cell(after, n, z as int, size) == word[n] by {
                    if e.contains(n as usize) {
                        assert(cell(after, n, z as int, size) == shards@[n]@);
                        assert(coded[n] == shards@[n]@);
                        assert(word[n] == word.subrange(
                            params.original_count as int,
                            params.nodes() as int,
                        )[n - params.original_count]);
                    } else {
                        assert(cell(after, n, z as int, size) == cell(before, n, z as int, size));
                    }
                }
                assert(layer(after, z as int, size, params.nodes()) =~= word);
            }
        }
    }
    Ok(())
}

/// Where fewer nodes below `upto` are erased than there are, one is not.
proof fn lemma_some_present(e: Set<usize>, upto: nat)
    requires
        erased_upto(e, upto) < upto,
        upto <= usize::MAX,
    ensures
        exists|n: usize| n < upto && !e.contains(n),
    decreases upto,
{
    if upto > 0 {
        if e.contains((upto - 1) as usize) {
            lemma_some_present(e, (upto - 1) as nat);
        } else {
            assert(!e.contains((upto - 1) as usize));
        }
    }
}

/// Where no node below `upto` counts as erased, none is.
proof fn lemma_none_erased(e: Set<usize>, upto: nat)
    requires
        erased_upto(e, upto) == 0,
    ensures
        forall|n: usize| n < upto ==> !e.contains(n),
    decreases upto,
{
    if upto > 0 {
        lemma_none_erased(e, (upto - 1) as nat);
    }
}

/// Marks the uncoupled value of `node` in layer `z` as known.
pub fn mark_known(params: &DecodeParams, u_computed: &mut Vec<Vec<bool>>, node: usize, z: usize)
    requires
        flags_ok(*params, old(u_computed)),
        node < params.nodes(),
        z < params.sub_chunk_no,
    ensures
        flags_ok(*params, final(u_computed)),
        known(flags(final(u_computed)), node as int, z as int),
        forall|n: int, l: int|
            0 <= n < params.nodes() && 0 <= l < params.sub_chunk_no && (n != node || l != z)
                ==> #[trigger] known(flags(final(u_computed)), n, l) == known(
                flags(old(u_computed)),
                n,
                l,
            ),
        grown(*params, flags(old(u_computed)), flags(final(u_computed))),
{
    u_computed[node][z] = true;
}

/// The place of a node in the order in which phase A visits the nodes:
/// all nodes with x = 0 first, then those with x = 1, and so on.
pub open spec fn rank(p: EncodeParams, node: nat) -> nat {
    ((node % (p.q as nat)) * p.t + node / (p.q as nat)) as nat
}

/// The node that phase A visits at step `i`.
proof fn lemma_rank(p: EncodeParams, i: nat)
    requires
        p.wf(),
        i < p.nodes(),
    ensures
        i / (p.t as nat) < p.q,
        i % (p.t as nat) < p.t,
        rank(p, ((i % (p.t as nat)) * p.q + i / (p.t as nat)) as nat) == i,
        forall|node: nat| node < p.nodes() && rank(p, node) == i
            ==> node == (i % (p.t as nat)) * p.q + i / (p.t as nat),
{
    p.lemma_wf();
    let t = p.t as nat;
    let q = p.q as nat;
    let x = i / t;
    let y = i % t;
    vstd::arithmetic::div_mod::lemma_fundamental_div_mod(i as int, t as int);
    assert(x < q) by (nonlinear_arith)
        requires
            i < q * t,
            i == t * x + y,
            0 <= y,
            t > 0,
    ;
    lemma_node_in_range(p, x, y);
    assert(x * t == t * x) by (nonlinear_arith);
    assert forall|node: nat| node < p.nodes() && rank(p, node) == i implies node == y * q + x by {
        lemma_node_geometry(p, node, 0);
        let x2 = node % q;
        let y2 = node / q;
        assert(x2 * t == t * x2) by (nonlinear_arith);
        vstd::arithmetic::div_mod::lemma_fundamental_div_mod_converse(
            i as int,
            t as int,
            x2 as int,
            y2 as int,
        );
    }
}

/// Phases A and B for layer `z`: computes the uncoupled values of the
/// nodes that are not erased from the coupled ones, then recovers those of
/// the erased nodes with the scalar code, and marks all of them as known.
pub fn decode_layered_with_tracking(
    params: &DecodeParams,
    erased_chunks: &BTreeSet<usize>,
    z: usize,
    chunks: &Vec<Vec<u8>>,
    u_buf: &mut Vec<Vec<u8>>,
    u_computed: &mut Vec<Vec<bool>>,
    sub_chunk_size: usize,
    rs: &Codec,
) -> (r: Result<(), ClayError>)
    requires
        params.wf(),
        buffer_ok(*params, sub_chunk_size as nat, chunks),
        buffer_ok(*params, sub_chunk_size as nat, old(u_buf)),
        flags_ok(*params, old(u_computed)),
        z < params.sub_chunk_no,
        sub_chunk_size >= 1,
        codec_data_shards(*rs) == params.original_count,
        codec_parity_shards(*rs) == params.recovery_count,
        erased_count(*params, erased_chunks@) <= params.m,
        up_to_date(
            *params,
            erased_chunks@,
            flags(old(u_computed)),
            score(*params, erased_chunks@, z as nat),
            z as nat,
        ),
        drew_on_complete(
            *params,
            erased_chunks@,
            flags(old(u_computed)),
            score(*params, erased_chunks@, z as nat),
            z as nat,
        ),
        uncoupled_known(
            *params,
            sub_chunk_size as nat,
            erased_chunks@,
            rows(chunks),
            rows(old(u_buf)),
            flags(old(u_computed)),
        ),
        layers_settled(
            *params,
            sub_chunk_size as nat,
            erased_chunks@,
            rows(old(u_buf)),
            score(*params, erased_chunks@, z as nat),
            z as nat,
        ),
    ensures
        buffer_ok(*params, sub_chunk_size as nat, final(u_buf)),
        flags_ok(*params, final(u_computed)),
        r is Ok,
        grown(*params, flags(old(u_computed)), flags(final(u_computed))),
        up_to_date(
            *params,
            erased_chunks@,
            flags(final(u_computed)),
            score(*params, erased_chunks@, z as nat),
            (z + 1) as nat,
        ),
        drew_on_complete(
            *params,
            erased_chunks@,
            flags(final(u_computed)),
            score(*params, erased_chunks@, z as nat),
            (z + 1) as nat,
        ),
        uncoupled_known(
            *params,
            sub_chunk_size as nat,
            erased_chunks@,
            rows(chunks),
            rows(final(u_buf)),
            flags(final(u_computed)),
        ),
        layers_settled(
            *params,
            sub_chunk_size as nat,
            erased_chunks@,
            rows(final(u_buf)),
            score(*params, erased_chunks@, z as nat),
            (z + 1) as nat,
        ),
        forall|n: int, l: int|
            0 <= n < params.nodes() && 0 <= l < params.sub_chunk_no && complete(
                *params,
                erased_chunks@,
                score(*params, erased_chunks@, z as nat),
                z as nat,
                l as nat,
            ) ==> #[trigger] cell(rows(final(u_buf)), n, l, sub_chunk_size as nat) == cell(
                rows(old(u_buf)),
                n,
                l,
                sub_chunk_size as nat,
            ),
{
    proof {
        params.lemma_wf();
    }
    let ghost p = *params;
    let ghost e = erased_chunks@;
    let ghost size = sub_chunk_size as nat;
    let ghost k0 = flags(u_computed);
    let ghost u0 = rows(u_buf);
    let ghost c = rows(chunks);
    let ghost s = score(p, e, z as nat);
    let z_vec = get_plane_vector(z, params.t, params.q);
    let mut needs_mds = erased_chunks.clone();
    let total_nodes = params.q * params.t;
    let mut i: usize = 0;
    while i < total_nodes
        invariant
            i <= total_nodes,
            total_nodes == p.nodes(),
            p == *params,
            p.wf(),
            p.t >= 1,
            e == erased_chunks@,
            needs_mds@ == e,
            size == sub_chunk_size,
            z < p.sub_chunk_no,
            z_vec@.len() == p.t,
            forall|y: int| 0 <= y < p.t ==> z_vec@[y] == p.plane_digit(z as nat, y as nat),
            buffer_ok(p, size, chunks),
            buffer_ok(p, size, u_buf),
            flags_ok(p, u_computed),
            up_to_date(p, e, k0, score(p, e, z as nat), z as nat),
            grown(p, k0, flags(u_computed)),
            c == rows(chunks),
            s == score(p, e, z as nat),
            uncoupled_known(p, size, e, c, rows(u_buf), flags(u_computed)),
            drew_on_complete(p, e, flags(u_computed), s, z as nat),
            forall|n: int, l: int|
                0 <= n < p.nodes() && 0 <= l < p.sub_chunk_no && (complete(p, e, s, z as nat, l as nat)
                    || e.contains(n as usize)) ==> #[trigger] cell(rows(u_buf), n, l, size)
                    == cell(u0, n, l, size),
            forall|node: int|
                0 <= node < p.nodes() && rank(p, node as nat) < i && !e.contains(node as usize)
                    ==> #[trigger] known(flags(u_computed), node, z as int),
            forall|node: int|
                0 <= node < p.nodes() && rank(p, node as nat) < i && is_primary(
                    p,
                    e,
                    node as nat,
                    z as nat,
                ) ==> #[trigger] known(
                    flags(u_computed),
                    p.companion_node(node as nat, z as nat) as int,
                    p.companion_layer(node as nat, z as nat) as int,
                ),
        decreases total_nodes - i,
    {
        let x = i / params.t;
        let y = i % params.t;
        proof {
            lemma_rank(p, i as nat);
            lemma_node_in_range(p, x as nat, y as nat);
            crate::digits::lemma_digit_bound(z as nat, p.q as nat, (p.t - 1 - y) as nat);
            lemma_node_in_range(p, z_vec@[y as int] as nat, y as nat);
        }
        let node_xy = params.q * y + x;
        let z_y = z_vec[y];
        let node_sw = params.q * y + z_y;
        let z_sw = get_companion_layer(params, z, x, y, z_y);
        proof {
            assert(params.q * y == y * params.q) by (nonlinear_arith);
            lemma_node_geometry(p, node_xy as nat, z as nat);
            crate::planes::lemma_companion_geometry(p, node_xy as nat, z as nat);
            assert(node_sw == p.companion_node(node_xy as nat, z as nat));
            assert(z_sw == p.companion_layer(node_xy as nat, z as nat));
        }
        let ghost k_before = flags(u_computed);
        let ghost u_before = rows(u_buf);
        proof {
            lemma_score_of_companion(p, e, node_xy as nat, z as nat);
        }
        if !erased_chunks.contains(&node_xy) {
            if z_y == x {
                let c_xy = get_cell(params, chunks, node_xy, z, sub_chunk_size);
                put_cell(params, u_buf, node_xy, z, sub_chunk_size, &c_xy);
                mark_known(params, u_computed, node_xy, z);
                proof {
                    lemma_phase_a_step(
                        p,
                        size,
                        e,
                        c,
                        u_before,
                        rows(u_buf),
                        k_before,
                        flags(u_computed),
                        node_xy as int,
                        z as int,
                        false,
                    );
                }
            } else if !erased_chunks.contains(&node_sw) {
                if z_y < x {
                    get_uncoupled_from_coupled(
                        params,
                        chunks,
                        u_buf,
                        x,
                        y,
                        z,
                        z_y,
                        z_sw,
                        sub_chunk_size,
                    );
                    let ghost k_mid = flags(u_computed);
                    mark_known(params, u_computed, node_xy, z);
                    mark_known(params, u_computed, node_sw, z_sw);
                    proof {
                        lemma_node_geometry(p, node_sw as nat, z_sw as nat);
                        assert(uncoupled_ok(p, size, e, c, rows(u_buf), node_xy as int, z as int));
                        assert(uncoupled_ok(
                            p,
                            size,
                            e,
                            c,
                            rows(u_buf),
                            node_sw as int,
                            z_sw as int,
                        ));
                        lemma_phase_a_step(
                            p,
                            size,
                            e,
                            c,
                            u_before,
                            rows(u_buf),
                            k_before,
                            flags(u_computed),
                            node_xy as int,
                            z as int,
                            true,
                        );
                    }
                } else {
                    proof {
                        lemma_phase_a_knows(p, e, k0, node_xy as nat, z as nat);
                    }
                }
            } else {
                proof {
                    lemma_phase_a_knows(p, e, k0, node_xy as nat, z as nat);
                    assert(known(flags(u_computed), node_sw as int, z_sw as int));
                }
                if u_computed[node_sw][z_sw] {
                    let c_xy = get_cell(params, chunks, node_xy, z, sub_chunk_size);
                    let u_sw = get_cell(params, u_buf, node_sw, z_sw, sub_chunk_size);
                    let u_xy = compute_u_from_c_and_ustar(c_xy.as_slice(), u_sw.as_slice());
                    put_cell(params, u_buf, node_xy, z, sub_chunk_size, &u_xy);
                    mark_known(params, u_computed, node_xy, z);
                    proof {
                        assert(complete(p, e, s, z as nat, z_sw as nat));
                        assert(cell(rows(u_buf), node_sw as int, z_sw as int, size) == cell(
                            u_before,
                            node_sw as int,
                            z_sw as int,
                            size,
                        ));
                        assert(uncoupled_ok(p, size, e, c, rows(u_buf), node_xy as int, z as int));
                        lemma_phase_a_step(
                            p,
                            size,
                            e,
                            c,
                            u_before,
                            rows(u_buf),
                            k_before,
                            flags(u_computed),
                            node_xy as int,
                            z as int,
                            false,
                        );
                    }
                } else {
                    needs_mds.insert(node_xy);
                }
            }
        }
        proof {
            let k_after = flags(u_computed);
            assert(grown(p, k_before, k_after));
            assert forall|node: int|
                0 <= node < p.nodes() && rank(p, node as nat) < i + 1 && !e.contains(
                    node as usize,
                ) implies #[trigger] known(k_after, node, z as int) by {
                if rank(p, node as nat) < i {
                    assert(known(k_before, node, z as int));
                }
            }
            assert forall|node: int|
                0 <= node < p.nodes() && rank(p, node as nat) < i + 1 && is_primary(
                    p,
                    e,
                    node as nat,
                    z as nat,
                ) implies #[trigger] known(
                k_after,
                p.companion_node(node as nat, z as nat) as int,
                p.companion_layer(node as nat, z as nat) as int,
            ) by {
                lemma_node_geometry(p, node as nat, z as nat);
                crate::planes::lemma_companion_geometry(p, node as nat, z as nat);
                if rank(p, node as nat) < i {
                    assert(known(
                        k_before,
                        p.companion_node(node as nat, z as nat) as int,
                        p.companion_layer(node as nat, z as nat) as int,
                    ));
                }
            }
        }
        i += 1;
    }
    let ghost u_a = rows(u_buf);
    match decode_uncoupled_layer(params, &needs_mds, z, sub_chunk_size, u_buf, rs) {
        Err(err) => {
            return Err(err);
        },
        Ok(()) => {},
    }
    let ghost k_mid = flags(u_computed);
    let ghost u_b = rows(u_buf);
    proof {
        lemma_phase_b_step(p, size, e, c, u_a, u_b, k_mid, z as int);
        assert forall|word: Seq<Seq<u8>>| #[trigger]
            layer_agrees(p, size, u_b, e, z as int, word) && is_layer_codeword(
                p,
                word,
            ) implies layer(u_b, z as int, size, p.nodes()) == word by {
            assert forall|n: int| 0 <= n < p.nodes() && !e.contains(n as usize) implies cell(
                u_a,
                n,
                z as int,
                size,
            ) == #[trigger] word[n] by {
                assert(cell(u_b, n, z as int, size) == cell(u_a, n, z as int, size));
            }
            assert(layer_agrees(p, size, u_a, e, z as int, word));
        }
        assert(layer_determined(p, size, e, u_b, z as int));
        assert forall|n: int, l: int|
            0 <= n < p.nodes() && 0 <= l < p.sub_chunk_no && complete(
                p,
                e,
                s,
                z as nat,
                l as nat,
            ) implies #[trigger] cell(u_b, n, l, size) == cell(u0, n, l, size) by {
            assert(cell(u_b, n, l, size) == cell(u_a, n, l, size));
            assert(cell(u_a, n, l, size) == cell(u0, n, l, size));
        }
    }
    let mut node: usize = 0;
    while node < total_nodes
        invariant
            node <= total_nodes,
            total_nodes == p.nodes(),
            p == *params,
            needs_mds@ == e,
            z < p.sub_chunk_no,
            flags_ok(p, u_computed),
            grown(p, k_mid, flags(u_computed)),
            forall|n: int|
                0 <= n < node && e.contains(n as usize) ==> #[trigger] known(
                    flags(u_computed),
                    n,
                    z as int,
                ),
            forall|n: int, l: int|
                0 <= n < p.nodes() && 0 <= l < p.sub_chunk_no && #[trigger] known(
                    flags(u_computed),
                    n,
                    l,
                ) && !e.contains(n as usize) ==> known(k_mid, n, l),
        decreases total_nodes - node,
    {
        let ghost k_before = flags(u_computed);
        if needs_mds.contains(&node) {
            mark_known(params, u_computed, node, z);
        }
        proof {
            assert(grown(p, k_before, flags(u_computed)));
        }
        node += 1;
    }
    proof {
        let k1 = flags(u_computed);
        assert(grown(p, k0, k1));
        assert forall|n: int| 0 <= n < p.nodes() implies #[trigger] known(k1, n, z as int) by {
            lemma_rank_bound(p, n as nat);
            if !e.contains(n as usize) {
                assert(known(k_mid, n, z as int));
            }
        }
        assert forall|n: int|
            0 <= n < p.nodes() && is_primary(p, e, n as nat, z as nat) implies #[trigger] known(
            k1,
            p.companion_node(n as nat, z as nat) as int,
            p.companion_layer(n as nat, z as nat) as int,
        ) by {
            lemma_rank_bound(p, n as nat);
            lemma_node_geometry(p, n as nat, z as nat);
            crate::planes::lemma_companion_geometry(p, n as nat, z as nat);
            assert(known(
                k_mid,
                p.companion_node(n as nat, z as nat) as int,
                p.companion_layer(n as nat, z as nat) as int,
            ));
        }
        lemma_progress_advance(p, e, k0, k1, z as nat);
        lemma_mark_erased(p, size, e, c, u_b, k_mid, k1, s, z as nat);
        lemma_settled_advance(p, size, e, u0, u_b, k1, z as nat);
    }
    Ok(())
}

/// Every node has a place in the order of phase A.
proof fn lemma_rank_bound(p: EncodeParams, node: nat)
    requires
        p.wf(),
        node < p.nodes(),
    ensures
        rank(p, node) < p.nodes(),
{
    lemma_node_geometry(p, node, 0);
    let x = node % (p.q as nat);
    let y = node / (p.q as nat);
    assert(x * p.t + y < p.q * p.t) by (nonlinear_arith)
        requires
            x < p.q,
            y < p.t,
    ;
}

/// Phase C for layer `z`: computes the coupled values of the erased nodes
/// from the uncoupled ones. A red vertex has its uncoupled value; a vertex
/// whose companion is not erased is recovered from the companion's coupled
/// value; two erased companions are recovered together by PFT, when the
/// decoder comes to the one with the larger x.
pub fn recover_coupled_layer(
    params: &DecodeParams,
    erased_chunks: &BTreeSet<usize>,
    z: usize,
    chunks: &mut Vec<Vec<u8>>,
    u_buf: &Vec<Vec<u8>>,
    sub_chunk_size: usize,
)
    requires
        params.wf(),
        buffer_ok(*params, sub_chunk_size as nat, old(chunks)),
        buffer_ok(*params, sub_chunk_size as nat, u_buf),
        z < params.sub_chunk_no,
        coupled_set(
            *params,
            sub_chunk_size as nat,
            erased_chunks@,
            rows(old(chunks)),
            rows(u_buf),
            score(*params, erased_chunks@, z as nat),
            z as nat,
            0,
        ),
    ensures
        buffer_ok(*params, sub_chunk_size as nat, final(chunks)),
        coupled_set(
            *params,
            sub_chunk_size as nat,
            erased_chunks@,
            rows(final(chunks)),
            rows(u_buf),
            score(*params, erased_chunks@, z as nat),
            z as nat,
            params.nodes(),
        ),
        forall|n: int|
            0 <= n < params.nodes() && !erased_chunks@.contains(n as usize)
                ==> (#[trigger] final(chunks)@[n]) == old(chunks)@[n],
{
    proof {
        params.lemma_wf();
    }
    let ghost p = *params;
    let ghost e = erased_chunks@;
    let ghost size = sub_chunk_size as nat;
    let z_vec = get_plane_vector(z, params.t, params.q);
    let total_nodes = params.q * params.t;
    let mut node_xy: usize = 0;
    while node_xy < total_nodes
        invariant
            node_xy <= total_nodes,
            total_nodes == p.nodes(),
            p == *params,
            p.wf(),
            e == erased_chunks@,
            size == sub_chunk_size,
            z < p.sub_chunk_no,
            z_vec@.len() == p.t,
            forall|y: int| 0 <= y < p.t ==> z_vec@[y] == p.plane_digit(z as nat, y as nat),
            buffer_ok(p, size, chunks),
            buffer_ok(p, size, u_buf),
            forall|n: int|
                0 <= n < p.nodes() && !e.contains(n as usize) ==> (#[trigger] chunks@[n]) == old(chunks)@[n],
            coupled_set(
                p,
                size,
                e,
                rows(chunks),
                rows(u_buf),
                score(p, e, z as nat),
                z as nat,
                node_xy as nat,
            ),
        decreases total_nodes - node_xy,
    {
        let ghost c_before = rows(chunks);
        let ghost u = rows(u_buf);
        if !erased_chunks.contains(&node_xy) {
            proof {
                lemma_phase_c_pass(
                    p,
                    size,
                    e,
                    c_before,
                    u,
                    score(p, e, z as nat),
                    z as nat,
                    node_xy as nat,
                );
            }
        }
        if erased_chunks.contains(&node_xy) {
            let x = node_xy % params.q;
            let y = node_xy / params.q;
            proof {
                lemma_node_geometry(p, node_xy as nat, z as nat);
                crate::planes::lemma_companion_geometry(p, node_xy as nat, z as nat);
                crate::digits::lemma_digit_bound(z as nat, p.q as nat, (p.t - 1 - y) as nat);
                lemma_node_in_range(p, z_vec@[y as int] as nat, y as nat);
                lemma_node_in_range(p, x as nat, y as nat);
            }
            let z_y = z_vec[y];
            let node_sw = y * params.q + z_y;
            let z_sw = get_companion_layer(params, z, x, y, z_y);
            proof {
                assert(node_sw == p.companion_node(node_xy as nat, z as nat));
                assert(z_sw == p.companion_layer(node_xy as nat, z as nat));
                assert(node_xy == y * p.q + x);
            }
            if z_y != x {
                if !erased_chunks.contains(&node_sw) {
                    recover_type1_erasure(
                        params,
                        chunks,
                        u_buf,
                        x,
                        y,
                        z,
                        z_y,
                        z_sw,
                        sub_chunk_size,
                    );
                    proof {
                        assert(cell(rows(chunks), node_sw as int, z_sw as int, size) == cell(
                            c_before,
                            node_sw as int,
                            z_sw as int,
                            size,
                        ));
                        assert(coupled_ok(p, size, e, rows(chunks), u, node_xy as int, z as int));
                        lemma_phase_c_step(
                            p,
                            size,
                            e,
                            c_before,
                            rows(chunks),
                            u,
                            node_xy as int,
                            z as int,
                            false,
                        );
                    }
                } else if z_y < x {
                    get_coupled_from_uncoupled(
                        params,
                        chunks,
                        u_buf,
                        x,
                        y,
                        z,
                        z_y,
                        z_sw,
                        sub_chunk_size,
                    );
                    proof {
                        lemma_node_geometry(p, node_sw as nat, z_sw as nat);
                        assert(coupled_ok(p, size, e, rows(chunks), u, node_xy as int, z as int));
                        assert(coupled_ok(
                            p,
                            size,
                            e,
                            rows(chunks),
                            u,
                            node_sw as int,
                            z_sw as int,
                        ));
                        lemma_phase_c_step(
                            p,
                            size,
                            e,
                            c_before,
                            rows(chunks),
                            u,
                            node_xy as int,
                            z as int,
                            true,
                        );
                    }
                } else {
                    proof {
                        lemma_phase_c_step(
                            p,
                            size,
                            e,
                            c_before,
                            rows(chunks),
                            u,
                            node_xy as int,
                            z as int,
                            false,
                        );
                    }
                }
            } else {
                let u_xy = get_cell(params, u_buf, node_xy, z, sub_chunk_size);
                put_cell(params, chunks, node_xy, z, sub_chunk_size, &u_xy);
                proof {
                    assert(coupled_ok(p, size, e, rows(chunks), u, node_xy as int, z as int));
                    lemma_phase_c_step(
                        p,
                        size,
                        e,
                        c_before,
                        rows(chunks),
                        u,
                        node_xy as int,
                        z as int,
                        false,
                    );
                }
            }
        }
        node_xy += 1;
    }
}

/// A table of flags, one per node and layer, none of them set.
pub fn no_flags(params: &DecodeParams) -> (k: Vec<Vec<bool>>)
    requires
        params.wf(),
    ensures
        flags_ok(*params, &k),
        forall|n: int, l: int|
            0 <= n < params.nodes() && 0 <= l < params.sub_chunk_no ==> !#[trigger] known(
                flags(&k),
                n,
                l,
            ),
{
    proof {
        params.lemma_wf();
    }
    let total_nodes = params.q * params.t;
    let mut k: Vec<Vec<bool>> = Vec::new();
    let mut n: usize = 0;
    while n < total_nodes
        invariant
            n <= total_nodes,
            total_nodes == params.nodes(),
            k@.len() == n,
            forall|i: int| 0 <= i < n ==> (#[trigger] k@[i])@.len() == params.sub_chunk_no,
            forall|i: int, l: int|
                0 <= i < n && 0 <= l < params.sub_chunk_no ==> !(#[trigger] k@[i]@[l]),
        decreases total_nodes - n,
    {
        let mut row: Vec<bool> = Vec::new();
        let mut l: usize = 0;
        while l < params.sub_chunk_no
            invariant
                l <= params.sub_chunk_no,
                row@.len() == l,
                forall|j: int| 0 <= j < l ==> !row@[j],
            decreases params.sub_chunk_no - l,
        {
            row.push(false);
            l += 1;
        }
        k.push(row);
        n += 1;
    }
    k
}

/// A row of `len` zeros for the scores of the layers.
fn zero_scores(len: usize) -> (v: Vec<usize>)
    ensures
        v@.len() == len,
{
    let mut v: Vec<usize> = Vec::new();
    let mut i: usize = 0;
    while i < len
        invariant
            i <= len,
            v@.len() == i,
        decreases len - i,
    {
        v.push(0);
        i += 1;
    }
    v
}

/// The layered decoder: fills the chunks of the erased nodes.
///
/// The layers are worked on in the order of their intersection scores. For
/// each score, phases A and B run on every layer of that score, and then
/// phase C on every layer of that score.
pub fn decode_layered(
    params: &DecodeParams,
    erased_chunks: &BTreeSet<usize>,
    chunks: &mut Vec<Vec<u8>>,
    sub_chunk_size: usize,
) -> (r: Result<(), ClayError>)
    requires
        params.wf(),
        buffer_ok(*params, sub_chunk_size as nat, old(chunks)),
        sub_chunk_size >= 1,
        erased_count(*params, erased_chunks@) <= params.m,
    ensures
        buffer_ok(*params, sub_chunk_size as nat, final(chunks)),
        forall|n: int|
            0 <= n < params.nodes() && !erased_chunks@.contains(n as usize)
                ==> (#[trigger] final(chunks)@[n]) == old(chunks)@[n],
        params.original_count + params.recovery_count <= 256 ==> r is Ok,
        r is Ok ==> exists|u: Seq<Seq<u8>>|
            decoded(
                *params,
                sub_chunk_size as nat,
                erased_chunks@,
                rows(old(chunks)),
                rows(final(chunks)),
                u,
            ),
        params.original_count + params.recovery_count > 256 ==> (r matches Err(
            ClayError::ReconstructionFailed(_),
        )),
        params.original_count + params.recovery_count > 256 ==> *final(chunks) == *old(chunks),
{
    proof {
        params.lemma_wf();
    }
    let ghost p = *params;
    let ghost e = erased_chunks@;
    let ghost size = sub_chunk_size as nat;
    let total_nodes = params.q * params.t;
    let rs = match codec_new(params.original_count, params.recovery_count) {
        Ok(rs) => rs,
        Err(err) => {
            return Err(ClayError::ReconstructionFailed(codec_error_text(&err)));
        },
    };
    let chunk_size = chunks[0].len();
    let mut u_buf = zeroed(total_nodes, chunk_size);
    let mut u_computed = no_flags(params);
    let mut order = zero_scores(params.sub_chunk_no);
    set_planes_sequential_decoding_order(params, &mut order, erased_chunks);
    let max_iscore = get_max_iscore(params, erased_chunks);
    let ghost c_in = rows(chunks);
    proof {
        lemma_progress_start(p, e, flags(&u_computed));
        assert(has_shape(c_in, p.nodes(), p.sub_chunk_no as nat, size)) by {
            assert forall|i: int| 0 <= i < p.nodes() implies (#[trigger] c_in[i]).len()
                == p.sub_chunk_no * size by {
                assert(chunks@[i]@.len() == p.sub_chunk_no * size);
            }
        }
    }
    let mut iscore: usize = 0;
    while iscore <= max_iscore
        invariant
            iscore <= max_iscore + 1,
            max_iscore <= p.t,
            p.t < usize::MAX,
            p == *params,
            p.wf(),
            e == erased_chunks@,
            size == sub_chunk_size,
            size >= 1,
            total_nodes == p.nodes(),
            codec_data_shards(rs) == p.original_count,
            codec_parity_shards(rs) == p.recovery_count,
            erased_count(p, e) <= p.m,
            order@.len() == p.sub_chunk_no,
            forall|l: int| 0 <= l < p.sub_chunk_no ==> order@[l] == score(p, e, l as nat),
            buffer_ok(p, size, chunks),
            buffer_ok(p, size, &u_buf),
            flags_ok(p, &u_computed),
            up_to_date(p, e, flags(&u_computed), iscore as nat, 0),
            forall|n: int|
                0 <= n < p.nodes() && !e.contains(n as usize) ==> (#[trigger] chunks@[n]) == old(chunks)@[n],
            c_in == rows(old(chunks)),
            has_shape(c_in, p.nodes(), p.sub_chunk_no as nat, size),
            max_iscore == sections_hit(p, e),
            drew_on_complete(p, e, flags(&u_computed), iscore as nat, 0),
            uncoupled_known(p, size, e, rows(chunks), rows(&u_buf), flags(&u_computed)),
            layers_settled(p, size, e, rows(&u_buf), iscore as nat, 0),
            coupled_set(p, size, e, rows(chunks), rows(&u_buf), iscore as nat, 0, 0),
        decreases max_iscore + 1 - iscore,
    {
        let ghost c_pass = rows(chunks);
        let mut z: usize = 0;
        while z < params.sub_chunk_no
            invariant
                z <= p.sub_chunk_no,
                p == *params,
                p.wf(),
                e == erased_chunks@,
                size == sub_chunk_size,
                size >= 1,
                codec_data_shards(rs) == p.original_count,
                codec_parity_shards(rs) == p.recovery_count,
                erased_count(p, e) <= p.m,
                order@.len() == p.sub_chunk_no,
                forall|l: int| 0 <= l < p.sub_chunk_no ==> order@[l] == score(p, e, l as nat),
                buffer_ok(p, size, chunks),
                buffer_ok(p, size, &u_buf),
                flags_ok(p, &u_computed),
                up_to_date(p, e, flags(&u_computed), iscore as nat, z as nat),
                c_pass == rows(chunks),
                forall|n: int|
                    0 <= n < p.nodes() && !e.contains(n as usize) ==> (#[trigger] chunks@[n])
                        == old(chunks)@[n],
                drew_on_complete(p, e, flags(&u_computed), iscore as nat, z as nat),
                uncoupled_known(p, size, e, c_pass, rows(&u_buf), flags(&u_computed)),
                layers_settled(p, size, e, rows(&u_buf), iscore as nat, z as nat),
                coupled_set(p, size, e, c_pass, rows(&u_buf), iscore as nat, 0, 0),
            decreases p.sub_chunk_no - z,
        {
            let ghost u_before = rows(&u_buf);
            if order[z] == iscore {
                match decode_layered_with_tracking(
                    params,
                    erased_chunks,
                    z,
                    chunks,
                    &mut u_buf,
                    &mut u_computed,
                    sub_chunk_size,
                    &rs,
                ) {
                    Err(err) => {
                        return Err(err);
                    },
                    Ok(()) => {},
                }
                proof {
                    lemma_coupled_set_frame(
                        p,
                        size,
                        e,
                        c_pass,
                        u_before,
                        rows(&u_buf),
                        iscore as nat,
                        z as nat,
                    );
                }
            } else {
                proof {
                    lemma_progress_skip(p, e, flags(&u_computed), iscore as nat, z as nat);
                    lemma_settled_skip(
                        p,
                        size,
                        e,
                        rows(&u_buf),
                        flags(&u_computed),
                        iscore as nat,
                        z as nat,
                    );
                }
            }
            z += 1;
        }
        let mut z: usize = 0;
        while z < params.sub_chunk_no
            invariant
                z <= p.sub_chunk_no,
                p == *params,
                p.wf(),
                e == erased_chunks@,
                size == sub_chunk_size,
                order@.len() == p.sub_chunk_no,
                buffer_ok(p, size, chunks),
                buffer_ok(p, size, &u_buf),
                forall|n: int|
                    0 <= n < p.nodes() && !e.contains(n as usize) ==> (#[trigger] chunks@[n])
                        == old(chunks)@[n],
                forall|l: int| 0 <= l < p.sub_chunk_no ==> order@[l] == score(p, e, l as nat),
                uncoupled_known(p, size, e, rows(chunks), rows(&u_buf), flags(&u_computed)),
                coupled_set(p, size, e, rows(chunks), rows(&u_buf), iscore as nat, z as nat, 0),
            decreases p.sub_chunk_no - z,
        {
            let ghost c_before = rows(chunks);
            if order[z] == iscore {
                recover_coupled_layer(params, erased_chunks, z, chunks, &u_buf, sub_chunk_size);
                proof {
                    assert forall|n: int|
                        0 <= n < p.nodes() && !e.contains(n as usize) implies #[trigger] rows(
                        chunks,
                    )[n] == c_before[n] by {
                        assert(chunks@[n] == old(chunks)@[n]);
                    }
                    lemma_uncoupled_known_frame(
                        p,
                        size,
                        e,
                        c_before,
                        rows(chunks),
                        rows(&u_buf),
                        flags(&u_computed),
                    );
                    lemma_coupled_next_layer(
                        p,
                        size,
                        e,
                        rows(chunks),
                        rows(&u_buf),
                        iscore as nat,
                        z as nat,
                    );
                }
            } else {
                proof {
                    lemma_coupled_skip(
                        p,
                        size,
                        e,
                        rows(chunks),
                        rows(&u_buf),
                        iscore as nat,
                        z as nat,
                    );
                }
            }
            z += 1;
        }
        proof {
            lemma_progress_next_score(p, e, flags(&u_computed), iscore as nat);
            lemma_settled_next_score(p, size, e, rows(&u_buf), flags(&u_computed), iscore as nat);
            lemma_coupled_next_score(p, size, e, rows(chunks), rows(&u_buf), iscore as nat);
        }
        iscore += 1;
    }
    proof {
        let c_out = rows(chunks);
        let u = rows(&u_buf);
        let k = flags(&u_computed);
        let s = (max_iscore + 1) as nat;
        assert(iscore == s);
        assert forall|z: nat| z < p.sub_chunk_no implies #[trigger] score(p, e, z) < s by {
            crate::planes::lemma_score_bound(p, e, z, p.t as nat);
        }
        assert(has_shape(c_out, p.nodes(), p.sub_chunk_no as nat, size)) by {
            assert forall|i: int| 0 <= i < p.nodes() implies (#[trigger] c_out[i]).len()
                == p.sub_chunk_no * size by {
                assert(chunks@[i]@.len() == p.sub_chunk_no * size);
            }
        }
        assert(has_shape(u, p.nodes(), p.sub_chunk_no as nat, size)) by {
            assert forall|i: int| 0 <= i < p.nodes() implies (#[trigger] u[i]).len()
                == p.sub_chunk_no * size by {
                assert(u_buf@[i]@.len() == p.sub_chunk_no * size);
            }
        }
        assert forall|n: int| 0 <= n < p.nodes() && !e.contains(n as usize) implies #[trigger] c_out[n]
            == c_in[n] by {
            assert(chunks@[n] == old(chunks)@[n]);
        }
        assert forall|n: int, z: int|
            0 <= n < p.nodes() && 0 <= z < p.sub_chunk_no && !e.contains(
                n as usize,
            ) implies #[trigger] uncoupled_ok(p, size, e, c_out, u, n, z) by {
            assert(complete(p, e, s, 0, z as nat));
            assert(known(k, n, z));
        }
        assert forall|n: int, z: int|
            0 <= n < p.nodes() && 0 <= z < p.sub_chunk_no && e.contains(
                n as usize,
            ) implies #[trigger] coupled_ok(p, size, e, c_out, u, n, z) by {
            assert(complete(p, e, s, 0, z as nat));
            assert(coupled_done(p, e, s, 0, 0, n as nat, z as nat));
        }
        assert forall|z: int| 0 <= z < p.sub_chunk_no implies #[trigger] layer_determined(
            p,
            size,
            e,
            u,
            z,
        ) by {
            assert(complete(p, e, s, 0, z as nat));
        }
        if parity_erased(p, e) {
            assert forall|z: int| 0 <= z < p.sub_chunk_no implies is_layer_codeword(
                p,
                #[trigger] layer(u, z, size, p.nodes()),
            ) by {
                assert(complete(p, e, s, 0, z as nat));
                assert(layer_determined(p, size, e, u, z));
            }
        }
        assert(decoded(p, size, e, c_in, c_out, u));
    }
    Ok(())
}

/// Every available chunk has `size` bytes, a positive multiple of the
/// number of sub-chunks.
pub open spec fn sizes_ok(p: EncodeParams, available: Map<usize, Vec<u8>>, size: nat) -> bool {
    &&& size > 0
    &&& size % (p.sub_chunk_no as nat) == 0
    &&& forall|i: usize| available.contains_key(i) ==> (#[trigger] available[i])@.len() == size
}

/// The available chunks and the erasures are indices of chunks, no chunk
/// is both, and every chunk is one or the other.
pub open spec fn indices_ok(p: EncodeParams, available: Map<usize, Vec<u8>>, erasures: Seq<usize>) -> bool {
    &&& forall|i: usize| #[trigger] available.contains_key(i) ==> i < p.n
    &&& forall|j: int| 0 <= j < erasures.len() ==> #[trigger] erasures[j] < p.n
    &&& forall|j: int| 0 <= j < erasures.len() ==> !available.contains_key(#[trigger] erasures[j])
    &&& available.dom().len() == p.n - erasures.len()
    &&& forall|i: usize| i < p.n ==> erasures.contains(i) || #[trigger] available.contains_key(i)
}

/// What an error about the sizes of the available chunks says: either one
/// chunk has a size that no chunk can have, or two chunks differ in size.
pub open spec fn is_size_error(p: EncodeParams, available: Map<usize, Vec<u8>>, err: ClayError) -> bool {
    match err {
        ClayError::InvalidChunkSize { expected, actual } => {
            &&& expected == p.sub_chunk_no
            &&& (actual == 0 || actual % p.sub_chunk_no != 0)
            &&& exists|i: usize| available.contains_key(i) && (#[trigger] available[i])@.len() == actual
        },
        ClayError::InconsistentChunkSizes { first_size, mismatched_idx, mismatched_size } => {
            &&& first_size > 0
            &&& first_size % p.sub_chunk_no == 0
            &&& exists|i: usize| available.contains_key(i) && (#[trigger] available[i])@.len() == first_size
            &&& available.contains_key(mismatched_idx)
            &&& available[mismatched_idx]@.len() == mismatched_size
            &&& mismatched_size != first_size
        },
        _ => false,
    }
}

/// The first `upto` rows of a buffer, one after the other.
pub open spec fn joined(b: Seq<Seq<u8>>, upto: nat) -> Seq<u8>
    decreases upto,
{
    if upto == 0 {
        Seq::empty()
    } else {
        joined(b, (upto - 1) as nat) + b[upto - 1]
    }
}

/// The erasure set in internal indices of the first `upto` erasures.
pub open spec fn internal_erasures(p: EncodeParams, erasures: Seq<usize>, upto: nat) -> Set<usize>
    decreases upto,
{
    if upto == 0 {
        Set::empty()
    } else {
        internal_erasures(p, erasures, (upto - 1) as nat).insert(
            p.to_internal(erasures[upto - 1] as int) as usize,
        )
    }
}

/// One more erased node makes the count of erased nodes larger by one,
/// unless the node was erased before or lies beyond the nodes counted.
pub proof fn lemma_erased_insert(e: Set<usize>, node: usize, upto: nat)
    requires
        upto <= usize::MAX,
    ensures
        erased_upto(e.insert(node), upto) == erased_upto(e, upto) + if node < upto && !e.contains(
            node,
        ) {
            1nat
        } else {
            0nat
        },
    decreases upto,
{
    if upto > 0 {
        lemma_erased_insert(e, node, (upto - 1) as nat);
    }
}

/// No node of the empty set is erased.
pub proof fn lemma_erased_empty(upto: nat)
    ensures
        erased_upto(Set::<usize>::empty(), upto) == 0,
    decreases upto,
{
    if upto > 0 {
        lemma_erased_empty((upto - 1) as nat);
    }
}

/// The internal index of the chunk with external index `idx`.
pub fn internal_index(params: &DecodeParams, idx: usize) -> (r: usize)
    requires
        params.wf(),
        idx < params.n,
    ensures
        r == params.to_internal(idx as int),
        r < params.nodes(),
        !params.is_shortened(r as int),
{
    proof {
        params.lemma_wf();
    }
    if idx < params.k {
        idx
    } else {
        idx + params.nu
    }
}

/// Checks the available chunks and the erasures against each other and
/// against the code, and gives the size that all chunks have.
pub fn check_available(
    params: &DecodeParams,
    available: &HashMap<usize, Vec<u8>>,
    erasures: &[usize],
) -> (r: Result<usize, ClayError>)
    requires
        params.wf(),
        !available@.dom().is_empty(),
    ensures
        erasures@.len() > params.m ==> r == Err::<usize, ClayError>(
            ClayError::TooManyErasures { max: params.m, actual: erasures@.len() as usize },
        ),
        erasures@.len() <= params.m && !(exists|size: nat| sizes_ok(*params, available@, size))
            ==> r is Err && is_size_error(*params, available@, r->Err_0),
        erasures@.len() <= params.m && (exists|size: nat| sizes_ok(*params, available@, size))
            && !indices_ok(*params, available@, erasures@) ==> (r matches Err(
            ClayError::InvalidParameters(_),
        )),
        erasures@.len() <= params.m && (exists|size: nat| sizes_ok(*params, available@, size))
            && indices_ok(*params, available@, erasures@) ==> r is Ok,
        r matches Ok(size) ==> sizes_ok(*params, available@, size as nat),
{
    proof {
        params.lemma_wf();
    }
    if erasures.len() > params.m {
        return Err(ClayError::TooManyErasures { max: params.m, actual: erasures.len() });
    }
    let keys = key_list(available);
    proof {
        assert(keys@.len() > 0) by {
            if keys@.len() == 0 {
                assert(available@.dom() =~= Set::<usize>::empty());
            }
        }
        assert forall|j: int| 0 <= j < keys@.len() implies available@.contains_key(
            #[trigger] keys@[j],
        ) by {
            assert(keys@.to_set().contains(keys@[j]));
        }
        assert forall|i: usize| available@.contains_key(i) implies keys@.contains(i) by {
            assert(keys@.to_set().contains(i));
        }
    }
    let first = keys[0];
    let chunk_size = match available.get(&first) {
        Some(chunk) => chunk.len(),
        None => 0,
    };
    if chunk_size == 0 || chunk_size % params.sub_chunk_no != 0 {
        proof {
            assert(available@.contains_key(first) && available@[first]@.len() == chunk_size);
            assert forall|size: nat| !sizes_ok(*params, available@, size) by {
                if sizes_ok(*params, available@, size) {
                    assert(available@[first]@.len() == size);
                }
            }
        }
        return Err(
            ClayError::InvalidChunkSize { expected: params.sub_chunk_no, actual: chunk_size },
        );
    }
    let mut i: usize = 1;
    while i < keys.len()
        invariant
            1 <= i <= keys@.len(),
            forall|j: int| 0 <= j < keys@.len() ==> available@.contains_key(#[trigger] keys@[j]),
            forall|j: int| 0 <= j < i ==> (#[trigger] available@[keys@[j]])@.len() == chunk_size,
            first == keys@[0],
            chunk_size > 0,
            chunk_size % params.sub_chunk_no == 0,
            erasures@.len() <= params.m,
        decreases keys@.len() - i,
    {
        let idx = keys[i];
        let len = match available.get(&idx) {
            Some(chunk) => chunk.len(),
            None => 0,
        };
        if len != chunk_size {
            proof {
                assert(available@.contains_key(first) && available@[first]@.len() == chunk_size);
                assert(available@.contains_key(idx) && available@[idx]@.len() == len);
                assert forall|size: nat| !sizes_ok(*params, available@, size) by {
                    if sizes_ok(*params, available@, size) {
                        assert(available@[first]@.len() == size);
                        assert(available@[idx]@.len() == size);
                    }
                }
            }
            return Err(
                ClayError::InconsistentChunkSizes {
                    first_size: chunk_size,
                    mismatched_idx: idx,
                    mismatched_size: len,
                },
            );
        }
        i += 1;
    }
    proof {
        assert forall|k: usize| available@.contains_key(k) implies (#[trigger] available@[k])@.len()
            == chunk_size by {
            assert(keys@.contains(k));
            let j = choose|j: int| 0 <= j < keys@.len() && keys@[j] == k;
            assert(available@[keys@[j]]@.len() == chunk_size);
        }
        assert(sizes_ok(*params, available@, chunk_size as nat));
    }
    let mut i: usize = 0;
    while i < keys.len()
        invariant
            i <= keys@.len(),
            forall|j: int| 0 <= j < keys@.len() ==> available@.contains_key(#[trigger] keys@[j]),
            forall|j: int| 0 <= j < i ==> (#[trigger] keys@[j]) < params.n,
            sizes_ok(*params, available@, chunk_size as nat),
            erasures@.len() <= params.m,
        decreases keys@.len() - i,
    {
        if keys[i] >= params.n {
            proof {
                assert(available@.contains_key(keys@[i as int]));
            }
            return Err(ClayError::InvalidParameters("Chunk index out of range".to_owned()));
        }
        i += 1;
    }
    proof {
        assert forall|k: usize| #[trigger] available@.contains_key(k) implies k < params.n by {
            assert(keys@.contains(k));
            let j = choose|j: int| 0 <= j < keys@.len() && keys@[j] == k;
            assert(keys@[j] < params.n);
        }
    }
    let mut i: usize = 0;
    while i < erasures.len()
        invariant
            i <= erasures@.len(),
            forall|j: int| 0 <= j < i ==> (#[trigger] erasures@[j]) < params.n,
            sizes_ok(*params, available@, chunk_size as nat),
            erasures@.len() <= params.m,
        decreases erasures@.len() - i,
    {
        if erasures[i] >= params.n {
            return Err(ClayError::InvalidParameters("Erasure index out of range".to_owned()));
        }
        i += 1;
    }
    let mut i: usize = 0;
    while i < erasures.len()
        invariant
            i <= erasures@.len(),
            forall|j: int| 0 <= j < i ==> !available@.contains_key(#[trigger] erasures@[j]),
            sizes_ok(*params, available@, chunk_size as nat),
            erasures@.len() <= params.m,
        decreases erasures@.len() - i,
    {
        if available.contains_key(&erasures[i]) {
            return Err(
                ClayError::InvalidParameters(
                    "Node is both in available chunks and marked as erased".to_owned(),
                ),
            );
        }
        i += 1;
    }
    let expected_available = params.n - erasures.len();
    if available.len() != expected_available {
        return Err(
            ClayError::InvalidParameters(
                "Expected n - erasures available chunks, but got another number".to_owned(),
            ),
        );
    }
    let mut node: usize = 0;
    while node < params.n
        invariant
            node <= params.n,
            forall|i: usize| i < node ==> erasures@.contains(i) || #[trigger] available@.contains_key(i),
            sizes_ok(*params, available@, chunk_size as nat),
            erasures@.len() <= params.m,
        decreases params.n - node,
    {
        if !list_contains(erasures, node) && !available.contains_key(&node) {
            return Err(
                ClayError::InvalidParameters(
                    "Node is neither erased nor provided in available chunks".to_owned(),
                ),
            );
        }
        node += 1;
    }
    Ok(chunk_size)
}

/// Rows of one length, joined: the length of the whole, and where each
/// row lies in it.
pub proof fn lemma_joined(b: Seq<Seq<u8>>, upto: nat, len: nat)
    requires
        upto <= b.len(),
        forall|i: int| 0 <= i < upto ==> (#[trigger] b[i]).len() == len,
    ensures
        joined(b, upto).len() == upto * len,
        forall|i: int|
            0 <= i < upto ==> #[trigger] joined(b, upto).subrange(i * len, i * len + len) == b[i],
    decreases upto,
{
    if upto == 0 {
        assert(upto * len == 0) by (nonlinear_arith)
            requires
                upto == 0,
        ;
    } else {
        let prev = (upto - 1) as nat;
        lemma_joined(b, prev, len);
        assert(prev * len + len == upto * len) by (nonlinear_arith)
            requires
                prev + 1 == upto,
        ;
        assert forall|i: int| 0 <= i < upto implies #[trigger] joined(b, upto).subrange(
            i * len,
            i * len + len,
        ) == b[i] by {
            lemma_cell_bounds(i as nat, upto, len);
            if i < prev {
                lemma_cell_bounds(i as nat, prev, len);
                assert(joined(b, upto).subrange(i * len, i * len + len) =~= joined(
                    b,
                    prev,
                ).subrange(i * len, i * len + len));
            } else {
                assert(joined(b, upto).subrange(i * len, i * len + len) =~= b[i]);
            }
        }
    }
}

/// The joined rows read only the rows that are joined.
pub proof fn lemma_joined_prefix(a: Seq<Seq<u8>>, b: Seq<Seq<u8>>, upto: nat)
    requires
        forall|i: int| 0 <= i < upto ==> a[i] == b[i],
    ensures
        joined(a, upto) == joined(b, upto),
    decreases upto,
{
    if upto > 0 {
        lemma_joined_prefix(a, b, (upto - 1) as nat);
    }
}

/// A node of the internal erasure set is the internal index of an erasure.
pub proof fn lemma_internal_erasures(p: EncodeParams, erasures: Seq<usize>, upto: nat, node: usize)
    requires
        p.wf(),
        upto <= erasures.len(),
        forall|j: int| 0 <= j < upto ==> #[trigger] erasures[j] < p.n,
        internal_erasures(p, erasures, upto).contains(node),
    ensures
        exists|j: int| 0 <= j < upto && node == p.to_internal(#[trigger] erasures[j] as int),
    decreases upto,
{
    p.lemma_wf();
    if upto > 0 {
        assert(erasures[upto - 1] < p.n);
        if node != p.to_internal(erasures[upto - 1] as int) as usize {
            lemma_internal_erasures(p, erasures, (upto - 1) as nat, node);
        }
    }
}

/// Whether every available chunk is the chunk that the code word `word`
/// has for its node.
pub open spec fn available_agree(
    p: EncodeParams,
    available: Map<usize, Vec<u8>>,
    word: Seq<Seq<u8>>,
) -> bool {
    forall|i: usize|
        available.contains_key(i) ==> (#[trigger] available[i])@ == word[p.to_internal(i as int)]
}

/// Every erasure is in the internal erasure set, by its internal index.
pub proof fn lemma_internal_erasures_hold(
    p: EncodeParams,
    erasures: Seq<usize>,
    upto: nat,
    j: int,
)
    requires
        upto <= erasures.len(),
        0 <= j < upto,
    ensures
        internal_erasures(p, erasures, upto).contains(p.to_internal(erasures[j] as int) as usize),
    decreases upto,
{
    if j < upto - 1 {
        lemma_internal_erasures_hold(p, erasures, (upto - 1) as nat, j);
    }
}

/// What `decode` returns for the available chunks and the erasures that
/// it is given: which error on which input, and which data otherwise.
pub open spec fn decode_post(
    p: EncodeParams,
    available: Map<usize, Vec<u8>>,
    erasures: Seq<usize>,
    r: Result<Vec<u8>, ClayError>,
) -> bool {
    &&& available.dom().is_empty() && erasures.len() == 0 ==> (r matches Ok(v) && v@.len() == 0)
    &&& available.dom().is_empty() && erasures.len() > 0 ==> (r matches Err(
        ClayError::InvalidParameters(_),
    ))
    &&& !available.dom().is_empty() && erasures.len() > p.m ==> r == Err::<Vec<u8>, ClayError>(
        ClayError::TooManyErasures { max: p.m, actual: erasures.len() as usize },
    )
    &&& !available.dom().is_empty() && erasures.len() <= p.m && !(exists|size: nat|
        sizes_ok(p, available, size)) ==> r is Err && is_size_error(
        p,
        available,
        r->Err_0,
    )
    &&& !available.dom().is_empty() && erasures.len() <= p.m && (exists|size: nat|
        sizes_ok(p, available, size)) && !indices_ok(p, available, erasures)
        ==> (r matches Err(ClayError::InvalidParameters(_)))
    &&& !available.dom().is_empty() && erasures.len() <= p.m && (exists|size: nat|
        sizes_ok(p, available, size)) && indices_ok(p, available, erasures)
        && p.original_count + p.recovery_count > 256 ==> (r matches Err(
        ClayError::ReconstructionFailed(_),
    ))
    &&& !available.dom().is_empty() && erasures.len() <= p.m && (exists|size: nat|
        sizes_ok(p, available, size)) && indices_ok(p, available, erasures)
        && p.original_count + p.recovery_count <= 256 ==> r is Ok
    &&& r is Ok && !available.dom().is_empty() ==> exists|size: nat|
        #![trigger sizes_ok(p, available, size)]
        {
            &&& sizes_ok(p, available, size)
            &&& r->Ok_0@.len() == p.k * size
            &&& forall|i: usize|
                i < p.k && available.contains_key(i) ==> r->Ok_0@.subrange(
                    i * size,
                    i * size + size,
                ) == (#[trigger] available[i])@
        }
    &&& r is Ok && !available.dom().is_empty() ==> forall|size: nat, word: Seq<Seq<u8>>|
        sizes_ok(p, available, (p.sub_chunk_no * size) as nat) && #[trigger] is_clay_codeword(
            p,
            size,
            word,
        ) && available_agree(p, available, word) ==> r->Ok_0@ == joined(word, p.k as nat)
}

/// Recovers the data from the chunks that are available.
///
/// `available` holds the chunks that are there, by external index;
/// `erasures` lists the indices of those that are not. The result is the
/// data that was encoded, padding included: the `k` data chunks one after
/// the other.
pub fn decode(
    params: &DecodeParams,
    available: &HashMap<usize, Vec<u8>>,
    erasures: &[usize],
) -> (r: Result<Vec<u8>, ClayError>)
    requires
        params.wf(),
    ensures
        decode_post(*params, available@, erasures@, r),
{
    proof {
        params.lemma_wf();
    }
    if available.is_empty() && erasures.len() == 0 {
        return Ok(Vec::new());
    }
    if available.is_empty() {
        return Err(
            ClayError::InvalidParameters(
                "No available chunks provided but erasures are non-empty".to_owned(),
            ),
        );
    }
    let chunk_size = match check_available(params, available, erasures) {
        Ok(size) => size,
        Err(err) => {
            return Err(err);
        },
    };
    let ghost p = *params;
    let ghost cs = chunk_size as nat;
    let sub_chunk_size = chunk_size / params.sub_chunk_no;
    let ghost size = sub_chunk_size as nat;
    proof {
        vstd::arithmetic::div_mod::lemma_fundamental_div_mod(
            chunk_size as int,
            params.sub_chunk_no as int,
        );
        assert(sub_chunk_size >= 1) by (nonlinear_arith)
            requires
                chunk_size == params.sub_chunk_no * sub_chunk_size,
                chunk_size > 0,
                params.sub_chunk_no > 0,
                sub_chunk_size >= 0,
        ;
    }
    let total_nodes = params.q * params.t;
    let mut chunks = zeroed(total_nodes, chunk_size);
    let mut idx: usize = 0;
    while idx < params.n
        invariant
            idx <= p.n,
            p == *params,
            p.wf(),
            p.nodes() == p.k + p.nu + p.m,
            total_nodes == p.nodes(),
            cs == chunk_size,
            cs == p.sub_chunk_no * size,
            sizes_ok(p, available@, cs),
            buffer_ok(p, size, &chunks),
            forall|i: usize|
                i < idx && available@.contains_key(i) ==> (#[trigger] chunks@[p.to_internal(
                    i as int,
                )])@ == available@[i]@,
            forall|node: int|
                0 <= node < p.nodes() && p.is_shortened(node) ==> (#[trigger] chunks@[node])@
                    == Seq::new(cs, |j: int| 0u8),
        decreases p.n - idx,
    {
        match available.get(&idx) {
            Some(data) => {
                let internal_idx = internal_index(params, idx);
                let row = copy_bytes(data);
                assert(row@.len() == cs) by {
                    assert(available@[idx]@.len() == cs);
                }
                chunks[internal_idx] = row;
            },
            None => {},
        }
        idx += 1;
    }
    let mut erased_set: BTreeSet<usize> = BTreeSet::new();
    let mut i: usize = 0;
    proof {
        lemma_erased_empty(p.nodes());
    }
    while i < erasures.len()
        invariant
            i <= erasures@.len(),
            p == *params,
            p.wf(),
            p.nodes() <= usize::MAX,
            indices_ok(p, available@, erasures@),
            erased_set@ == internal_erasures(p, erasures@, i as nat),
            erased_count(p, erased_set@) <= i,
        decreases erasures@.len() - i,
    {
        assert(erasures@[i as int] < p.n);
        let internal_idx = internal_index(params, erasures[i]);
        proof {
            lemma_erased_insert(erased_set@, internal_idx, p.nodes());
        }
        erased_set.insert(internal_idx);
        i += 1;
    }
    let ghost before = chunks@;
    let ghost c_in = rows(&chunks);
    match decode_layered(params, &erased_set, &mut chunks, sub_chunk_size) {
        Ok(()) => {},
        Err(err) => {
            return Err(err);
        },
    }
    proof {
        let c_out = rows(&chunks);
        let e = erased_set@;
        let u = choose|u: Seq<Seq<u8>>| decoded(p, size, e, c_in, c_out, u);
        assert forall|size2: nat, word: Seq<Seq<u8>>|
            sizes_ok(p, available@, (p.sub_chunk_no * size2) as nat) && #[trigger] is_clay_codeword(
                p,
                size2,
                word,
            ) && available_agree(p, available@, word) implies c_out == word by {
            let first = choose|i: usize| available@.dom().contains(i);
            assert(available@.contains_key(first));
            assert(available@[first]@.len() == cs);
            assert(size2 == size) by (nonlinear_arith)
                requires
                    p.sub_chunk_no * size2 == p.sub_chunk_no * size,
                    p.sub_chunk_no > 0,
            ;
            assert forall|n: int| 0 <= n < p.nodes() && !e.contains(n as usize) implies #[trigger] c_in[n]
                == word[n] by {
                if p.is_shortened(n) {
                    assert(before[n]@ == Seq::new(cs, |j: int| 0u8));
                } else {
                    let ext = crate::repair::to_external(p, n) as usize;
                    assert(p.to_internal(ext as int) == n);
                    if erasures@.contains(ext) {
                        let j = choose|j: int| 0 <= j < erasures@.len() && erasures@[j] == ext;
                        lemma_internal_erasures_hold(p, erasures@, erasures@.len(), j);
                    }
                    assert(available@.contains_key(ext));
                    assert(before[p.to_internal(ext as int)]@ == available@[ext]@);
                }
            }
            assert(agrees_outside(p, e, c_in, word));
            lemma_decoded_is_the_codeword(p, size, e, c_in, c_out, u, word);
        }
    }
    let mut result: Vec<u8> = Vec::new();
    let mut i: usize = 0;
    while i < params.k
        invariant
            i <= p.k,
            p == *params,
            p.k <= chunks@.len(),
            result@ == joined(rows(&chunks), i as nat),
        decreases p.k - i,
    {
        proof {
            lemma_joined_prefix(rows(&chunks), rows(&chunks), i as nat);
        }
        append_bytes(&mut result, &chunks[i]);
        i += 1;
    }
    proof {
        assert(!available@.dom().is_empty());
        lemma_joined(rows(&chunks), p.k as nat, cs);
        assert forall|i: usize| i < p.k && available@.contains_key(i) implies result@.subrange(
            i * cs,
            i * cs + cs,
        ) == (#[trigger] available@[i])@ by {
            assert(p.to_internal(i as int) == i);
            if erased_set@.contains(i) {
                lemma_internal_erasures(p, erasures@, erasures@.len(), i);
                let j = choose|j: int|
                    0 <= j < erasures@.len() && i == p.to_internal(#[trigger] erasures@[j] as int);
                assert(erasures@[j] < p.n);
                assert(!available@.contains_key(erasures@[j]));
            }
            assert(chunks@[i as int] == before[i as int]);
            assert(rows(&chunks)[i as int] == available@[i]@);
        }
        assert(sizes_ok(p, available@, cs));
    }
    Ok(result)
}

} // verus!
