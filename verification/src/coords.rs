//! Coordinates of the coded data.
//!
//! A node is a point `(x, y)`: `x` is its place within its y-section, `y`
//! the y-section. A sub-chunk is a vertex `(x, y, z)` with `z` its layer.
//! The plane vector of a layer holds its base-`q` digits, most significant
//! first, one per y-section. The functions that take a y-section without
//! the number of y-sections read `y` as the weight of a digit: digit `y`
//! is the one worth `q^y`.

use vstd::prelude::*;
use vstd::arithmetic::power::pow;
use vstd::arithmetic::div_mod::{lemma_div_denominator, lemma_fundamental_div_mod};
use crate::digits::{digit, lemma_pow_step};
use crate::power::checked_pow;
use std::collections::BTreeSet;

verus! {

/// `base` to the power `exp`, where that fits the machine integer.
pub fn power(base: usize, exp: usize) -> (r: usize)
    requires
        pow(base as int, exp as nat) <= usize::MAX,
    ensures
        r == pow(base as int, exp as nat),
{
    match checked_pow(base, exp) {
        Some(p) => p,
        None => vstd::pervasive::unreached(),
    }
}

/// The layer with digit `y` changed from `z_y` to `x`.
pub open spec fn swapped_layer(z: int, x: int, y: nat, z_y: int, q: int) -> int {
    if x == z_y {
        z
    } else {
        z - z_y * pow(q, y) + x * pow(q, y)
    }
}

/// The companion layer of the vertex `(x, y, z)`, where `z_y` is digit `y`
/// of `z`: the layer whose digit `y` is `x`. A vertex with `x == z_y` is
/// its own companion.
pub fn get_companion_layer(z: usize, x: usize, y: usize, z_y: usize, q: usize) -> (r: usize)
    requires
        x != z_y ==> pow(q as int, y as nat) <= usize::MAX,
        x != z_y ==> z_y * pow(q as int, y as nat) <= z,
        x != z_y ==> z - z_y * pow(q as int, y as nat) + x * pow(q as int, y as nat) <= usize::MAX,
    ensures
        r == swapped_layer(z as int, x as int, y as nat, z_y as int, q as int),
{
    if x == z_y {
        return z;
    }
    let q_pow_y = power(q, y);
    assert(0 <= x * q_pow_y <= usize::MAX) by (nonlinear_arith)
        requires
            z - z_y * q_pow_y + x * q_pow_y <= usize::MAX,
            z_y * q_pow_y <= z,
            0 <= x,
            0 <= q_pow_y,
    ;
    assert(0 <= z_y * q_pow_y) by (nonlinear_arith)
        requires
            0 <= z_y,
            0 <= q_pow_y,
    ;
    z - z_y * q_pow_y + x * q_pow_y
}

/// Swapping a digit and swapping it back gives the layer again.
pub proof fn lemma_swapped_layer_involution(z: int, x: int, y: nat, z_y: int, q: int)
    ensures
        swapped_layer(swapped_layer(z, x, y, z_y, q), z_y, y, x, q) == z,
{
}

/// The plane vector of layer `z`: its `t` lowest base-`q` digits, the most
/// significant first.
pub fn get_plane_vector(z: usize, t: usize, q: usize) -> (r: Vec<usize>)
    requires
        q > 0,
    ensures
        r@.len() == t,
        forall|y: int| 0 <= y < t ==> r@[y] == digit(z as nat, q as nat, (t - 1 - y) as nat),
{
    let mut result: Vec<usize> = Vec::new();
    let mut j: usize = 0;
    while j < t
        invariant
            j <= t,
            result@.len() == j,
        decreases t - j,
    {
        result.push(0);
        j += 1;
    }
    let mut remaining = z;
    let mut i: usize = 0;
    proof {
        lemma_pow_step(q as nat, 0);
    }
    while i < t
        invariant
            i <= t,
            q > 0,
            result@.len() == t,
            remaining == z as int / pow(q as int, i as nat),
            forall|y: int| t - i <= y < t ==> result@[y] == digit(z as nat, q as nat, (t - 1 - y) as nat),
        decreases t - i,
    {
        proof {
            lemma_pow_step(q as nat, i as nat);
            lemma_div_denominator(z as int, pow(q as int, i as nat), q as int);
            assert(pow(q as int, i as nat) * q == q * pow(q as int, i as nat)) by (nonlinear_arith);
        }
        result[t - 1 - i] = remaining % q;
        remaining = remaining / q;
        i += 1;
    }
    result
}

/// Whether the vertex `(x, y, z)` is unpaired: `x` is digit `y` of `z`.
pub fn is_unpaired(x: usize, y: usize, z: usize, q: usize) -> (r: bool)
    requires
        q > 0,
        pow(q as int, y as nat) <= usize::MAX,
    ensures
        r == (x == digit(z as nat, q as nat, y as nat)),
{
    let z_y = get_z_y(z, y, q);
    x == z_y
}

/// Digit `y` of layer `z` in base `q`.
pub fn get_z_y(z: usize, y: usize, q: usize) -> (r: usize)
    requires
        q > 0,
        pow(q as int, y as nat) <= usize::MAX,
    ensures
        r == digit(z as nat, q as nat, y as nat),
{
    proof {
        lemma_pow_step(q as nat, y as nat);
    }
    (z / power(q, y)) % q
}

/// The coordinates `(x, y)` of a node.
pub fn node_to_xy(node: usize, q: usize) -> (r: (usize, usize))
    requires
        q > 0,
    ensures
        r.0 == node % q,
        r.1 == node / q,
{
    (node % q, node / q)
}

/// The node at `(x, y)`.
pub fn xy_to_node(x: usize, y: usize, q: usize) -> (r: usize)
    requires
        y * q + x <= usize::MAX,
    ensures
        r == y * q + x,
{
    assert(0 <= y * q) by (nonlinear_arith)
        requires
            0 <= y,
            0 <= q,
    ;
    y * q + x
}

/// A node is the node at its own coordinates, and the node at `(x, y)` has
/// these coordinates where `x` is below `q`.
pub proof fn lemma_node_coordinates(node: nat, x: nat, y: nat, q: nat)
    requires
        q > 0,
    ensures
        (node / q) * q + node % q == node,
        x < q ==> (y * q + x) % q == x && (y * q + x) / q == y,
{
    lemma_fundamental_div_mod(node as int, q as int);
    assert((node / q) * q == q * (node / q)) by (nonlinear_arith);
    if x < q {
        assert(y * q == q * y) by (nonlinear_arith);
        vstd::arithmetic::div_mod::lemma_fundamental_div_mod_converse(
            (y * q + x) as int,
            q as int,
            y as int,
            x as int,
        );
    }
}

/// The node of y-section `y` that is red in layer `z`.
pub open spec fn red_of_section(z: nat, t: nat, q: nat, y: nat) -> nat {
    y * q + digit(z, q, (t - 1 - y) as nat)
}

/// The number of y-sections below `upto` whose red node in layer `z` is
/// erased.
pub open spec fn layer_score_upto(erased: Set<usize>, z: nat, t: nat, q: nat, upto: nat) -> nat
    decreases upto,
{
    if upto == 0 {
        0
    } else {
        layer_score_upto(erased, z, t, q, (upto - 1) as nat) + if red_of_section(
            z,
            t,
            q,
            (upto - 1) as nat,
        ) <= usize::MAX && erased.contains(red_of_section(z, t, q, (upto - 1) as nat) as usize) {
            1nat
        } else {
            0nat
        }
    }
}

/// The intersection score of layer `z`: the number of erased nodes that
/// are red in it, one at most in each of the `t` y-sections.
pub open spec fn layer_score(erased: Set<usize>, z: nat, t: nat, q: nat) -> nat {
    layer_score_upto(erased, z, t, q, t)
}

/// The intersection score of layer `z`.
pub fn score_of_layer(erased: &BTreeSet<usize>, z: usize, t: usize, q: usize) -> (r: usize)
    requires
        q > 0,
    ensures
        r == layer_score(erased@, z as nat, t as nat, q as nat),
        r <= t,
{
    let plane_vec = get_plane_vector(z, t, q);
    let mut iscore: usize = 0;
    let mut y: usize = 0;
    while y < t
        invariant
            y <= t,
            plane_vec@.len() == t,
            forall|j: int|
                0 <= j < t ==> plane_vec@[j] == digit(z as nat, q as nat, (t - 1 - j) as nat),
            iscore == layer_score_upto(erased@, z as nat, t as nat, q as nat, y as nat),
            iscore <= y,
        decreases t - y,
    {
        let node = match y.checked_mul(q) {
            Some(base) => base.checked_add(plane_vec[y]),
            None => None,
        };
        proof {
            assert(0 <= y * q) by (nonlinear_arith)
                requires
                    0 <= y,
                    0 <= q,
            ;
        }
        match node {
            Some(n) => {
                if erased.contains(&n) {
                    iscore += 1;
                }
            },
            None => {},
        }
        y += 1;
    }
    iscore
}

/// The largest intersection score of the layers below `sub_chunk_no`.
pub fn get_max_iscore(erased_chunks: &BTreeSet<usize>, t: usize, q: usize, sub_chunk_no: usize) -> (r:
    usize)
    requires
        q > 0,
    ensures
        forall|z: nat|
            z < sub_chunk_no ==> #[trigger] layer_score(erased_chunks@, z, t as nat, q as nat) <= r,
        sub_chunk_no > 0 ==> exists|z: nat|
            z < sub_chunk_no && #[trigger] layer_score(erased_chunks@, z, t as nat, q as nat) == r,
        sub_chunk_no == 0 ==> r == 0,
{
    let mut max_iscore: usize = 0;
    let mut z: usize = 0;
    while z < sub_chunk_no
        invariant
            z <= sub_chunk_no,
            q > 0,
            forall|l: nat|
                l < z ==> #[trigger] layer_score(erased_chunks@, l, t as nat, q as nat)
                    <= max_iscore,
            z > 0 ==> exists|l: nat|
                l < z && #[trigger] layer_score(erased_chunks@, l, t as nat, q as nat)
                    == max_iscore,
            z == 0 ==> max_iscore == 0,
        decreases sub_chunk_no - z,
    {
        let iscore = score_of_layer(erased_chunks, z, t, q);
        if z == 0 || iscore > max_iscore {
            max_iscore = iscore;
        }
        proof {
            if max_iscore == iscore {
                assert(layer_score(erased_chunks@, z as nat, t as nat, q as nat) == max_iscore);
            } else {
                let l = choose|l: nat|
                    l < z && #[trigger] layer_score(erased_chunks@, l, t as nat, q as nat)
                        == max_iscore;
                assert(l < z + 1);
            }
        }
        z += 1;
    }
    max_iscore
}

/// Whether layer `a` comes before layer `b` in the order of decoding: by
/// the lower intersection score, and among layers of one score by the
/// lower number.
pub open spec fn decodes_before(erased: Set<usize>, t: nat, q: nat, a: nat, b: nat) -> bool {
    layer_score(erased, a, t, q) < layer_score(erased, b, t, q) || (layer_score(erased, a, t, q)
        == layer_score(erased, b, t, q) && a < b)
}

/// Whether layer `w` is among the first `placed` of the list.
pub open spec fn is_placed(order: Seq<usize>, placed: nat, w: nat) -> bool {
    exists|i: int| 0 <= i < placed && #[trigger] order[i] == w
}

/// Whether layer `w` has its turn before the filling comes to layer `z`
/// among the layers of score `s`.
pub open spec fn had_turn(erased: Set<usize>, t: nat, q: nat, s: nat, z: nat, w: nat) -> bool {
    layer_score(erased, w, t, q) < s || (layer_score(erased, w, t, q) == s && w < z)
}

/// What the list holds when the filling has come to layer `z` among the
/// layers of score `s`: layers that had their turn, in the order of
/// decoding, and all of them unless the list is full.
pub open spec fn filled(
    erased: Set<usize>,
    t: nat,
    q: nat,
    alpha: nat,
    order: Seq<usize>,
    placed: nat,
    s: nat,
    z: nat,
) -> bool {
    &&& placed <= order.len()
    &&& forall|i: int|
        0 <= i < placed ==> #[trigger] order[i] < alpha && had_turn(
            erased,
            t,
            q,
            s,
            z,
            order[i] as nat,
        )
    &&& forall|i: int, j: int|
        0 <= i < j < placed ==> decodes_before(
            erased,
            t,
            q,
            #[trigger] order[i] as nat,
            #[trigger] order[j] as nat,
        )
    &&& forall|w: nat|
        w < alpha && #[trigger] had_turn(erased, t, q, s, z, w) ==> is_placed(order, placed, w)
            || (placed == order.len() && comes_last(erased, t, q, order, placed, w))
}

/// Whether layer `w` comes after the first `placed` layers of the list in
/// the order of decoding.
pub open spec fn comes_last(
    erased: Set<usize>,
    t: nat,
    q: nat,
    order: Seq<usize>,
    placed: nat,
    w: nat,
) -> bool {
    forall|i: int| 0 <= i < placed ==> decodes_before(erased, t, q, #[trigger] order[i] as nat, w)
}

/// The filling gives layer `z` its turn: it places the layer, if the layer
/// has score `s` and the list has room.
proof fn lemma_fill_step(
    erased: Set<usize>,
    t: nat,
    q: nat,
    alpha: nat,
    order: Seq<usize>,
    order2: Seq<usize>,
    placed: nat,
    placed2: nat,
    s: nat,
    z: nat,
)
    requires
        z < alpha,
        alpha <= usize::MAX,
        filled(erased, t, q, alpha, order, placed, s, z),
        order2.len() == order.len(),
        if layer_score(erased, z, t, q) == s && placed < order.len() {
            placed2 == placed + 1 && order2 == order.update(placed as int, z as usize)
        } else {
            placed2 == placed && order2 == order
        },
    ensures
        filled(erased, t, q, alpha, order2, placed2, s, z + 1),
{
    assert forall|w: nat| w < alpha && #[trigger] had_turn(erased, t, q, s, z + 1, w) implies is_placed(
        order2,
        placed2,
        w,
    ) || (placed2 == order2.len() && comes_last(erased, t, q, order2, placed2, w)) by {
        if w == z && layer_score(erased, z, t, q) == s {
            if placed < order.len() {
                assert(order2[placed as int] == w);
            } else {
                assert forall|i: int| 0 <= i < placed2 implies decodes_before(
                    erased,
                    t,
                    q,
                    #[trigger] order2[i] as nat,
                    w,
                ) by {
                    assert(had_turn(erased, t, q, s, z, order[i] as nat));
                }
            }
        } else {
            assert(had_turn(erased, t, q, s, z, w));
            if is_placed(order, placed, w) {
                let i = choose|i: int| 0 <= i < placed && #[trigger] order[i] == w;
                assert(order2[i] == w);
            } else {
                assert(comes_last(erased, t, q, order, placed, w));
                assert(order2 == order);
            }
        }
    }
    assert forall|i: int, j: int| 0 <= i < j < placed2 implies decodes_before(
        erased,
        t,
        q,
        #[trigger] order2[i] as nat,
        #[trigger] order2[j] as nat,
    ) by {
        if j < placed {
            assert(decodes_before(erased, t, q, order[i] as nat, order[j] as nat));
        } else {
            assert(had_turn(erased, t, q, s, z, order[i] as nat));
        }
    }
    assert forall|i: int| 0 <= i < placed2 implies #[trigger] order2[i] < alpha && had_turn(
        erased,
        t,
        q,
        s,
        z + 1,
        order2[i] as nat,
    ) by {
        if i < placed {
            assert(had_turn(erased, t, q, s, z, order[i] as nat));
        }
    }
}

/// When every layer has had its turn, the list holds the layers that come
/// first in the order of decoding, as many as it has room for.
proof fn lemma_fill_done(
    erased: Set<usize>,
    t: nat,
    q: nat,
    alpha: nat,
    order: Seq<usize>,
    placed: nat,
    s: nat,
)
    requires
        alpha <= usize::MAX,
        filled(erased, t, q, alpha, order, placed, s, 0),
        forall|w: nat| w < alpha ==> #[trigger] layer_score(erased, w, t, q) < s,
    ensures
        placed == if order.len() <= alpha {
            order.len()
        } else {
            alpha
        },
        forall|z: nat, i: int|
            z < alpha && 0 <= i < placed ==> order.contains(z as usize) || #[trigger] decodes_before(
                erased,
                t,
                q,
                order[i] as nat,
                z,
            ),
{
    let listed = order.subrange(0, placed as int);
    assert(listed.no_duplicates()) by {
        assert forall|i: int, j: int|
            0 <= i < listed.len() && 0 <= j < listed.len() && i != j implies listed[i]
            != listed[j] by {
            if i < j {
                assert(decodes_before(erased, t, q, order[i] as nat, order[j] as nat));
            } else {
                assert(decodes_before(erased, t, q, order[j] as nat, order[i] as nat));
            }
        }
    }
    listed.unique_seq_to_set();
    vstd::seq_lib::seq_to_set_is_finite(listed);
    let all = crate::laws::below(alpha);
    crate::laws::lemma_below(alpha);
    assert forall|w: usize| listed.to_set().contains(w) implies all.contains(w) by {
        let i = choose|i: int| 0 <= i < listed.len() && listed[i] == w;
        assert(order[i] < alpha);
    }
    vstd::set_lib::lemma_len_subset(listed.to_set(), all);
    if placed < order.len() {
        assert forall|w: usize| all.contains(w) implies listed.to_set().contains(w) by {
            assert(had_turn(erased, t, q, s, 0, w as nat));
            assert(is_placed(order, placed, w as nat));
            let i = choose|i: int| 0 <= i < placed && #[trigger] order[i] == w as nat;
            assert(listed[i] == w);
        }
        vstd::set_lib::lemma_len_subset(all, listed.to_set());
    }
    assert forall|z: nat, i: int| z < alpha && 0 <= i < placed implies order.contains(
        z as usize,
    ) || #[trigger] decodes_before(erased, t, q, order[i] as nat, z) by {
        assert(had_turn(erased, t, q, s, 0, z));
        if is_placed(order, placed, z) {
            let a = choose|a: int| 0 <= a < placed && #[trigger] order[a] == z;
            assert(order[a] == z as usize);
        } else {
            // the list is full, and the layer comes after all that is in it
            assert(comes_last(erased, t, q, order, placed, z));
        }
    }
}

/// Fills `order` with the layers below `sub_chunk_no` in the order of
/// decoding, as far as it has room: where `order` is shorter than there
/// are layers, it holds the layers that come first.
pub fn set_planes_sequential_decoding_order(
    order: &mut [usize],
    erasures: &BTreeSet<usize>,
    t: usize,
    q: usize,
    sub_chunk_no: usize,
)
    requires
        q > 0,
    ensures
        final(order)@.len() == old(order)@.len(),
        forall|i: int|
            sub_chunk_no <= i < old(order)@.len() ==> final(order)@[i] == old(order)@[i],
        forall|i: int|
            0 <= i < old(order)@.len() && i < sub_chunk_no ==> #[trigger] final(order)@[i]
                < sub_chunk_no,
        forall|i: int, j: int|
            0 <= i < j < old(order)@.len() && j < sub_chunk_no ==> decodes_before(
                erasures@,
                t as nat,
                q as nat,
                #[trigger] final(order)@[i] as nat,
                #[trigger] final(order)@[j] as nat,
            ),
        forall|z: nat, i: int|
            z < sub_chunk_no && 0 <= i < old(order)@.len() && i < sub_chunk_no
                ==> final(order)@.contains(z as usize) || #[trigger] decodes_before(
                erasures@,
                t as nat,
                q as nat,
                final(order)@[i] as nat,
                z,
            ),
{
    let ghost e = erasures@;
    let ghost tn = t as nat;
    let ghost qn = q as nat;
    let ghost alpha = sub_chunk_no as nat;
    let len = order.len();
    let mut scores: Vec<usize> = Vec::new();
    let mut max_iscore: usize = 0;
    let mut z: usize = 0;
    while z < sub_chunk_no
        invariant
            z <= sub_chunk_no,
            q > 0,
            scores@.len() == z,
            forall|l: int| 0 <= l < z ==> scores@[l] == layer_score(e, l as nat, tn, qn),
            forall|l: int| 0 <= l < z ==> scores@[l] <= max_iscore,
            e == erasures@,
            tn == t,
            qn == q,
        decreases sub_chunk_no - z,
    {
        let iscore = score_of_layer(erasures, z, t, q);
        if iscore > max_iscore {
            max_iscore = iscore;
        }
        scores.push(iscore);
        z += 1;
    }
    let mut placed: usize = 0;
    let mut s: usize = 0;
    let mut done = false;
    while !done
        invariant
            s <= max_iscore,
            alpha == sub_chunk_no,
            scores@.len() == sub_chunk_no,
            forall|l: int| 0 <= l < sub_chunk_no ==> scores@[l] == layer_score(e, l as nat, tn, qn),
            forall|l: int| 0 <= l < sub_chunk_no ==> scores@[l] <= max_iscore,
            order@.len() == len,
            len == old(order)@.len(),
            forall|i: int| placed <= i < len ==> order@[i] == old(order)@[i],
            filled(e, tn, qn, alpha, order@, placed as nat, if done {
                (s + 1) as nat
            } else {
                s as nat
            }, 0),
            done ==> s == max_iscore,
        decreases max_iscore + 1 - s - if done {
            1int
        } else {
            0int
        },
    {
        let mut z: usize = 0;
        while z < sub_chunk_no
            invariant
                z <= sub_chunk_no,
                alpha == sub_chunk_no,
                scores@.len() == sub_chunk_no,
                forall|l: int|
                    0 <= l < sub_chunk_no ==> scores@[l] == layer_score(e, l as nat, tn, qn),
                order@.len() == len,
                len == old(order)@.len(),
                forall|i: int| placed <= i < len ==> order@[i] == old(order)@[i],
                filled(e, tn, qn, alpha, order@, placed as nat, s as nat, z as nat),
            decreases sub_chunk_no - z,
        {
            let ghost before = order@;
            let ghost placed_before = placed as nat;
            if scores[z] == s {
                if placed < len {
                    order[placed] = z;
                    placed += 1;
                }
            }
            proof {
                assert(order@.len() == before.len());
                if layer_score(e, z as nat, tn, qn) == s && placed_before < before.len() {
                    assert(order@ =~= before.update(placed_before as int, z));
                }
                lemma_fill_step(
                    e,
                    tn,
                    qn,
                    alpha,
                    before,
                    order@,
                    placed_before,
                    placed as nat,
                    s as nat,
                    z as nat,
                );
            }
            z += 1;
        }
        proof {
            assert forall|w: nat| w < alpha implies (had_turn(e, tn, qn, s as nat, alpha, w)
                <==> had_turn(e, tn, qn, (s + 1) as nat, 0, w)) by {}
            assert(filled(e, tn, qn, alpha, order@, placed as nat, (s + 1) as nat, 0)) by {
                assert forall|i: int| 0 <= i < placed implies #[trigger] order@[i] < alpha
                    && had_turn(e, tn, qn, (s + 1) as nat, 0, order@[i] as nat) by {
                    assert(had_turn(e, tn, qn, s as nat, alpha, order@[i] as nat));
                }
                assert forall|w: nat|
                    w < alpha && #[trigger] had_turn(
                        e,
                        tn,
                        qn,
                        (s + 1) as nat,
                        0,
                        w,
                    ) implies is_placed(order@, placed as nat, w) || (placed == order@.len()
                    && comes_last(e, tn, qn, order@, placed as nat, w)) by {
                    assert(had_turn(e, tn, qn, s as nat, alpha, w));
                }
            }
        }
        if s >= max_iscore {
            done = true;
        } else {
            s += 1;
        }
    }
    proof {
        assert forall|w: nat| w < alpha implies #[trigger] layer_score(e, w, tn, qn) < s + 1 by {
            assert(scores@[w as int] <= max_iscore);
        }
        lemma_fill_done(e, tn, qn, alpha, order@, placed as nat, (s + 1) as nat);
    }
}

} // verus!
