//! Planes, red vertices and intersection scores.
//!
//! In every layer each y-section has one red node: the one whose x is the
//! section's entry of the plane vector. The intersection score of a layer
//! under an erasure set is the number of erased nodes that are red in it,
//! which is the number of y-sections whose red node is erased.

use vstd::prelude::*;
use vstd::arithmetic::power::pow;
use crate::digits::{digit, with_digit, lemma_with_digit, lemma_digit_bound, lemma_pow_step};
use crate::coords::lemma_node_coordinates;
use crate::encode::EncodeParams;

verus! {

/// The red node of y-section `y` in layer `z`.
pub open spec fn red_node(p: EncodeParams, z: nat, y: nat) -> nat {
    (y * p.q + p.plane_digit(z, y)) as nat
}

/// The number of y-sections below `upto` whose red node in layer `z` is
/// erased.
pub open spec fn score_upto(p: EncodeParams, e: Set<usize>, z: nat, upto: nat) -> nat
    decreases upto,
{
    if upto == 0 {
        0
    } else {
        score_upto(p, e, z, (upto - 1) as nat) + if e.contains(
            red_node(p, z, (upto - 1) as nat) as usize,
        ) {
            1nat
        } else {
            0nat
        }
    }
}

/// The intersection score of layer `z`: the number of erased nodes that
/// are red in it.
pub open spec fn score(p: EncodeParams, e: Set<usize>, z: nat) -> nat {
    score_upto(p, e, z, p.t as nat)
}

/// Whether some node of y-section `y` is erased.
pub open spec fn section_hit(p: EncodeParams, e: Set<usize>, y: nat) -> bool {
    exists|x: nat| x < p.q && #[trigger] e.contains((y * p.q + x) as usize)
}

/// The number of y-sections below `upto` with an erased node.
pub open spec fn sections_hit_upto(p: EncodeParams, e: Set<usize>, upto: nat) -> nat
    decreases upto,
{
    if upto == 0 {
        0
    } else {
        sections_hit_upto(p, e, (upto - 1) as nat) + if section_hit(p, e, (upto - 1) as nat) {
            1nat
        } else {
            0nat
        }
    }
}

/// The number of y-sections with an erased node: the largest intersection
/// score that a layer can have.
pub open spec fn sections_hit(p: EncodeParams, e: Set<usize>) -> nat {
    sections_hit_upto(p, e, p.t as nat)
}

/// A score over some y-sections is at most their number, and at most the
/// number of those with an erased node.
pub proof fn lemma_score_bound(p: EncodeParams, e: Set<usize>, z: nat, upto: nat)
    requires
        p.wf(),
    ensures
        score_upto(p, e, z, upto) <= sections_hit_upto(p, e, upto),
        score_upto(p, e, z, upto) <= upto,
    decreases upto,
{
    if upto > 0 {
        let y = (upto - 1) as nat;
        lemma_score_bound(p, e, z, y);
        lemma_digit_bound(z, p.q as nat, (p.t - 1 - y) as nat);
        if e.contains(red_node(p, z, y) as usize) {
            assert(e.contains((y * p.q + p.plane_digit(z, y)) as usize));
        }
    }
}

/// Where a node sits: its coordinates, and the red node of its section.
pub proof fn lemma_node_geometry(p: EncodeParams, node: nat, z: nat)
    requires
        p.wf(),
        node < p.nodes(),
    ensures
        node / (p.q as nat) < p.t,
        node % (p.q as nat) < p.q,
        node == (node / (p.q as nat)) * p.q + node % (p.q as nat),
        p.plane_digit(z, node / (p.q as nat)) < p.q,
        p.companion_node(node, z) == red_node(p, z, node / (p.q as nat)),
        p.companion_node(node, z) < p.nodes(),
        p.companion_node(node, z) / (p.q as nat) == node / (p.q as nat),
        p.companion_node(node, z) % (p.q as nat) == p.plane_digit(z, node / (p.q as nat)),
        p.is_red(node, z) <==> p.companion_node(node, z) == node,
        p.is_red(p.companion_node(node, z), z),
{
    let q = p.q as nat;
    let y = node / q;
    let x = node % q;
    lemma_node_coordinates(node, x, y, q);
    lemma_digit_bound(z, q, (p.t - 1 - y) as nat);
    let d = p.plane_digit(z, y);
    lemma_node_coordinates(node, d, y, q);
    assert(y < p.t) by (nonlinear_arith)
        requires
            node < q * p.t,
            node == y * q + x,
            0 <= x,
            q > 0,
    ;
    assert(y * q + d < q * p.t) by (nonlinear_arith)
        requires
            y < p.t,
            d < q,
    ;
}

/// The companion of a vertex that is not red: it lies in another layer of
/// the same y-section, where the node itself is red, and its own companion
/// is the vertex again. All other y-sections have the same red node in the
/// two layers.
pub proof fn lemma_companion_geometry(p: EncodeParams, node: nat, z: nat)
    requires
        p.wf(),
        node < p.nodes(),
        z < p.sub_chunk_no,
    ensures
        p.companion_layer(node, z) < p.sub_chunk_no,
        p.is_red(node, z) ==> p.companion_layer(node, z) == z,
        !p.is_red(node, z) ==> p.companion_layer(node, z) != z,
        p.is_red(node, p.companion_layer(node, z)),
        red_node(p, p.companion_layer(node, z), node / (p.q as nat)) == node,
        forall|y: nat|
            y < p.t && y != node / (p.q as nat) ==> #[trigger] red_node(
                p,
                p.companion_layer(node, z),
                y,
            ) == red_node(p, z, y),
        p.companion_layer(p.companion_node(node, z), p.companion_layer(node, z)) == z,
        p.companion_node(p.companion_node(node, z), p.companion_layer(node, z)) == node,
        (node % (p.q as nat) < p.plane_digit(z, node / (p.q as nat))) ==> p.companion_layer(node, z)
            < z,
        (node % (p.q as nat) > p.plane_digit(z, node / (p.q as nat))) ==> p.companion_layer(node, z)
            > z,
{
    let q = p.q as nat;
    let t = p.t as nat;
    let y = node / q;
    let x = node % q;
    lemma_node_geometry(p, node, z);
    let i = (t - 1 - y) as nat;
    let d = digit(z, q, i);
    lemma_with_digit(z, q, t, i, x);
    let zs = with_digit(z, q, i, x) as nat;
    assert(zs == p.companion_layer(node, z));
    lemma_pow_step(q, i);
    let w = pow(q as int, i);
    assert((x - d) * w == 0 <==> x == d) by (nonlinear_arith)
        requires
            w > 0,
    ;
    assert(x < d ==> (x - d) * w < 0) by (nonlinear_arith)
        requires
            w > 0,
    ;
    assert(x > d ==> (x - d) * w > 0) by (nonlinear_arith)
        requires
            w > 0,
    ;
    assert forall|y2: nat| y2 < p.t && y2 != y implies #[trigger] red_node(p, zs, y2) == red_node(
        p,
        z,
        y2,
    ) by {
        assert((t - 1 - y2) as nat != i);
    }
    // the way back
    let ns = p.companion_node(node, z);
    lemma_node_geometry(p, ns, zs);
    lemma_with_digit(zs, q, t, i, d);
    let zb = with_digit(zs, q, i, d);
    assert(zb == zs + (d - x) * w);
    assert(zb == z) by (nonlinear_arith)
        requires
            zb == zs + (d - x) * w,
            zs == z + (x - d) * w,
    ;
}

/// Two layers with the same red node in every y-section but one have the
/// same score apart from that y-section.
proof fn lemma_score_apart(
    p: EncodeParams,
    e: Set<usize>,
    z1: nat,
    z2: nat,
    y0: nat,
    upto: nat,
)
    requires
        upto <= p.t,
        forall|y: nat| y < p.t && y != y0 ==> #[trigger] red_node(p, z1, y) == red_node(p, z2, y),
    ensures
        score_upto(p, e, z1, upto) + (if y0 < upto && e.contains(red_node(p, z2, y0) as usize) {
            1nat
        } else {
            0nat
        }) == score_upto(p, e, z2, upto) + (if y0 < upto && e.contains(
            red_node(p, z1, y0) as usize,
        ) {
            1nat
        } else {
            0nat
        }),
    decreases upto,
{
    if upto > 0 {
        lemma_score_apart(p, e, z1, z2, y0, (upto - 1) as nat);
        let y = (upto - 1) as nat;
        if y != y0 {
            assert(red_node(p, z1, y) == red_node(p, z2, y));
        }
    }
}

/// The score of the companion layer of a vertex: that of the layer, less
/// one if the companion node is erased, plus one if the node itself is.
pub proof fn lemma_score_of_companion(p: EncodeParams, e: Set<usize>, node: nat, z: nat)
    requires
        p.wf(),
        node < p.nodes(),
        z < p.sub_chunk_no,
    ensures
        score(p, e, p.companion_layer(node, z)) + (if e.contains(
            p.companion_node(node, z) as usize,
        ) {
            1nat
        } else {
            0nat
        }) == score(p, e, z) + (if e.contains(node as usize) {
            1nat
        } else {
            0nat
        }),
{
    lemma_node_geometry(p, node, z);
    lemma_companion_geometry(p, node, z);
    let zs = p.companion_layer(node, z);
    let y = node / (p.q as nat);
    lemma_score_apart(p, e, zs, z, y, p.t as nat);
}

/// The layer whose plane vector begins with the first `upto` entries of
/// `d` and goes on with zeros.
pub open spec fn layer_of(p: EncodeParams, d: Seq<nat>, upto: nat) -> nat
    decreases upto,
{
    if upto == 0 {
        0
    } else {
        with_digit(
            layer_of(p, d, (upto - 1) as nat),
            p.q as nat,
            (p.t - upto) as nat,
            d[upto - 1],
        ) as nat
    }
}

/// Every word of `t` entries below `q` is the plane vector of a layer.
pub proof fn lemma_layer_of(p: EncodeParams, d: Seq<nat>, upto: nat)
    requires
        p.wf(),
        d.len() == p.t,
        upto <= p.t,
        forall|y: int| 0 <= y < p.t ==> #[trigger] d[y] < p.q,
    ensures
        layer_of(p, d, upto) < p.sub_chunk_no,
        forall|y: nat| y < upto ==> #[trigger] p.plane_digit(layer_of(p, d, upto), y) == d[y as int],
    decreases upto,
{
    p.lemma_wf();
    if upto > 0 {
        let prev = layer_of(p, d, (upto - 1) as nat);
        lemma_layer_of(p, d, (upto - 1) as nat);
        let i = (p.t - upto) as nat;
        lemma_with_digit(prev, p.q as nat, p.t as nat, i, d[upto - 1]);
        assert forall|y: nat| y < upto implies #[trigger] p.plane_digit(layer_of(p, d, upto), y)
            == d[y as int] by {
            if y < upto - 1 {
                assert((p.t - 1 - y) as nat != i);
                assert(p.plane_digit(prev, y) == d[y as int]);
            }
        }
    } else {
        lemma_pow_step(p.q as nat, p.t as nat);
    }
}

/// An erased node of every y-section that has one, by its x; zero for the
/// other y-sections.
pub open spec fn erased_places(p: EncodeParams, e: Set<usize>) -> Seq<nat> {
    Seq::new(
        p.t as nat,
        |y: int|
            if section_hit(p, e, y as nat) {
                choose|x: nat| x < p.q && #[trigger] e.contains((y * p.q + x) as usize)
            } else {
                0nat
            },
    )
}

/// The number of y-sections with an erased node is the largest
/// intersection score: no layer has a higher one, and some layer has it.
pub proof fn lemma_sections_hit_is_max(p: EncodeParams, e: Set<usize>)
    requires
        p.wf(),
    ensures
        forall|z: nat| z < p.sub_chunk_no ==> #[trigger] score(p, e, z) <= sections_hit(p, e),
        exists|z: nat| z < p.sub_chunk_no && #[trigger] score(p, e, z) == sections_hit(p, e),
{
    p.lemma_wf();
    assert forall|z: nat| z < p.sub_chunk_no implies #[trigger] score(p, e, z) <= sections_hit(
        p,
        e,
    ) by {
        lemma_score_bound(p, e, z, p.t as nat);
    }
    let d = erased_places(p, e);
    assert forall|y: int| 0 <= y < p.t implies #[trigger] d[y] < p.q by {
        if section_hit(p, e, y as nat) {
            let x = choose|x: nat| x < p.q && #[trigger] e.contains((y * p.q + x) as usize);
            assert(d[y] == x);
        }
    }
    lemma_layer_of(p, d, p.t as nat);
    let z = layer_of(p, d, p.t as nat);
    lemma_score_of_places(p, e, z, p.t as nat);
    assert(score(p, e, z) == sections_hit(p, e));
}

/// In the layer of the erased places, the red node of every y-section
/// with an erased node is erased.
proof fn lemma_score_of_places(p: EncodeParams, e: Set<usize>, z: nat, upto: nat)
    requires
        p.wf(),
        upto <= p.t,
        forall|y: nat| y < p.t ==> #[trigger] p.plane_digit(z, y) == erased_places(p, e)[y as int],
    ensures
        score_upto(p, e, z, upto) == sections_hit_upto(p, e, upto),
    decreases upto,
{
    if upto > 0 {
        let y = (upto - 1) as nat;
        lemma_score_of_places(p, e, z, y);
        let x = p.plane_digit(z, y);
        assert(x == erased_places(p, e)[y as int]);
        if section_hit(p, e, y) {
            let x2 = choose|x2: nat| x2 < p.q && #[trigger] e.contains((y * p.q + x2) as usize);
            assert(x == x2);
            assert(e.contains(red_node(p, z, y) as usize));
        } else {
            lemma_digit_bound(z, p.q as nat, (p.t - 1 - y) as nat);
            if e.contains(red_node(p, z, y) as usize) {
                assert(e.contains((y * p.q + x) as usize));
                assert(section_hit(p, e, y));
            }
        }
    }
}

} // verus!
