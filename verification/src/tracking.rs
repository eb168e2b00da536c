//! Which uncoupled values the decoder knows, and when.
//!
//! The decoder goes through the layers in the order of their scores and,
//! among layers of one score, in the order of their numbers. A layer is
//! complete once its phases A and B are done: then the uncoupled value of
//! every node in that layer is known.

use vstd::prelude::*;
use crate::codeword::{
    coupled_ok,
    is_layer_codeword,
    layer,
    layer_agrees,
    layer_determined,
    parity_erased,
    uncoupled_ok,
};
use crate::encode::EncodeParams;
use crate::layout::cell;
use crate::planes::{lemma_companion_geometry, lemma_node_geometry, lemma_score_of_companion, score};

verus! {

/// One flag per node and layer.
pub open spec fn flags_ok(p: EncodeParams, k: &Vec<Vec<bool>>) -> bool {
    &&& k@.len() == p.nodes()
    &&& forall|i: int| 0 <= i < p.nodes() ==> (#[trigger] k@[i])@.len() == p.sub_chunk_no
}

/// The flags as sequences.
pub open spec fn flags(k: &Vec<Vec<bool>>) -> Seq<Seq<bool>> {
    Seq::new(k@.len(), |i: int| k@[i]@)
}

/// Whether the uncoupled value of `node` in layer `z` is marked as known.
pub open spec fn known(k: Seq<Seq<bool>>, node: int, z: int) -> bool {
    k[node][z]
}

/// Whether layer `z` is complete when the decoder, working on the layers
/// of score `s`, has come to layer `zc`.
pub open spec fn complete(p: EncodeParams, e: Set<usize>, s: nat, zc: nat, z: nat) -> bool {
    score(p, e, z) < s || (score(p, e, z) == s && z < zc)
}

/// A vertex of a pair of which no node is erased, and which has the
/// smaller x of the two: its uncoupled value is computed when the decoder
/// works on the companion layer.
pub open spec fn is_secondary(p: EncodeParams, e: Set<usize>, node: nat, z: nat) -> bool {
    &&& !e.contains(node as usize)
    &&& !e.contains(p.companion_node(node, z) as usize)
    &&& node % (p.q as nat) < p.plane_digit(z, node / (p.q as nat))
}

/// The other vertex of such a pair, with the larger x.
pub open spec fn is_primary(p: EncodeParams, e: Set<usize>, node: nat, z: nat) -> bool {
    &&& !e.contains(node as usize)
    &&& !e.contains(p.companion_node(node, z) as usize)
    &&& node % (p.q as nat) > p.plane_digit(z, node / (p.q as nat))
}

/// What the flags hold when the decoder, working on the layers of score
/// `s`, has come to layer `zc`: every value of a complete layer is known,
/// and so is every secondary value whose companion layer is complete.
pub open spec fn up_to_date(p: EncodeParams, e: Set<usize>, k: Seq<Seq<bool>>, s: nat, zc: nat) -> bool {
    &&& forall|node: int, z: int|
        0 <= node < p.nodes() && 0 <= z < p.sub_chunk_no && complete(p, e, s, zc, z as nat)
            ==> #[trigger] known(k, node, z)
    &&& forall|node: int, z: int|
        0 <= node < p.nodes() && 0 <= z < p.sub_chunk_no && is_secondary(
            p,
            e,
            node as nat,
            z as nat,
        ) && complete(p, e, s, zc, p.companion_layer(node as nat, z as nat)) ==> #[trigger] known(
            k,
            node,
            z,
        )
}

/// Every flag that is set in `a` is set in `b`.
pub open spec fn grown(p: EncodeParams, a: Seq<Seq<bool>>, b: Seq<Seq<bool>>) -> bool {
    forall|node: int, z: int|
        0 <= node < p.nodes() && 0 <= z < p.sub_chunk_no && known(a, node, z) ==> #[trigger] known(
            b,
            node,
            z,
        )
}

/// Before the first layer nothing needs to be known.
pub proof fn lemma_progress_start(p: EncodeParams, e: Set<usize>, k: Seq<Seq<bool>>)
    ensures
        up_to_date(p, e, k, 0, 0),
{
}

/// A layer of another score than the one being worked on is passed over.
pub proof fn lemma_progress_skip(p: EncodeParams, e: Set<usize>, k: Seq<Seq<bool>>, s: nat, zc: nat)
    requires
        up_to_date(p, e, k, s, zc),
        score(p, e, zc) != s,
    ensures
        up_to_date(p, e, k, s, zc + 1),
{
    assert forall|z: nat| complete(p, e, s, zc + 1, z) implies complete(p, e, s, zc, z) by {}
}

/// After the last layer of a score the decoder goes on to the next score.
pub proof fn lemma_progress_next_score(
    p: EncodeParams,
    e: Set<usize>,
    k: Seq<Seq<bool>>,
    s: nat,
)
    requires
        p.wf(),
        up_to_date(p, e, k, s, p.sub_chunk_no as nat),
    ensures
        up_to_date(p, e, k, s + 1, 0),
{
    assert forall|node: int, z: int|
        0 <= node < p.nodes() && 0 <= z < p.sub_chunk_no && complete(
            p,
            e,
            s + 1,
            0,
            z as nat,
        ) implies #[trigger] known(k, node, z) by {
        assert(complete(p, e, s, p.sub_chunk_no as nat, z as nat));
    }
    assert forall|node: int, z: int|
        0 <= node < p.nodes() && 0 <= z < p.sub_chunk_no && is_secondary(
            p,
            e,
            node as nat,
            z as nat,
        ) && complete(
            p,
            e,
            s + 1,
            0,
            p.companion_layer(node as nat, z as nat),
        ) implies #[trigger] known(k, node, z) by {
        lemma_companion_geometry(p, node as nat, z as nat);
        assert(complete(
            p,
            e,
            s,
            p.sub_chunk_no as nat,
            p.companion_layer(node as nat, z as nat),
        ));
    }
}

/// What phase A finds for a vertex that is not erased and not red, when it
/// works on a layer of the current score: if the companion is erased, the
/// companion's value is known from a layer of a lower score; if the vertex
/// is the secondary of its pair, its own value is known from a layer of
/// the same score and a lower number.
pub proof fn lemma_phase_a_knows(
    p: EncodeParams,
    e: Set<usize>,
    k: Seq<Seq<bool>>,
    node: nat,
    z: nat,
)
    requires
        p.wf(),
        node < p.nodes(),
        z < p.sub_chunk_no,
        up_to_date(p, e, k, score(p, e, z), z),
        !e.contains(node as usize),
        !p.is_red(node, z),
    ensures
        e.contains(p.companion_node(node, z) as usize) ==> known(
            k,
            p.companion_node(node, z) as int,
            p.companion_layer(node, z) as int,
        ),
        is_secondary(p, e, node, z) ==> known(k, node as int, z as int),
{
    lemma_node_geometry(p, node, z);
    lemma_companion_geometry(p, node, z);
    lemma_score_of_companion(p, e, node, z);
    let zs = p.companion_layer(node, z);
    let ns = p.companion_node(node, z);
    let s = score(p, e, z);
    if e.contains(ns as usize) {
        assert(complete(p, e, s, z, zs));
        assert(known(k, ns as int, zs as int));
    }
    if is_secondary(p, e, node, z) {
        assert(complete(p, e, s, z, zs));
        assert(known(k, node as int, z as int));
    }
}

/// After phases A and B of a layer of the current score the layer is
/// complete.
pub proof fn lemma_progress_advance(
    p: EncodeParams,
    e: Set<usize>,
    k0: Seq<Seq<bool>>,
    k1: Seq<Seq<bool>>,
    z: nat,
)
    requires
        p.wf(),
        z < p.sub_chunk_no,
        up_to_date(p, e, k0, score(p, e, z), z),
        grown(p, k0, k1),
        forall|node: int| 0 <= node < p.nodes() ==> #[trigger] known(k1, node, z as int),
        forall|node: int|
            0 <= node < p.nodes() && is_primary(p, e, node as nat, z) ==> #[trigger] known(
                k1,
                p.companion_node(node as nat, z) as int,
                p.companion_layer(node as nat, z) as int,
            ),
    ensures
        up_to_date(p, e, k1, score(p, e, z), z + 1),
{
    let s = score(p, e, z);
    assert forall|node: int, l: int|
        0 <= node < p.nodes() && 0 <= l < p.sub_chunk_no && complete(
            p,
            e,
            s,
            z + 1,
            l as nat,
        ) implies #[trigger] known(k1, node, l) by {
        if l != z {
            assert(complete(p, e, s, z, l as nat));
            assert(known(k0, node, l));
        }
    }
    assert forall|node: int, l: int|
        0 <= node < p.nodes() && 0 <= l < p.sub_chunk_no && is_secondary(
            p,
            e,
            node as nat,
            l as nat,
        ) && complete(
            p,
            e,
            s,
            z + 1,
            p.companion_layer(node as nat, l as nat),
        ) implies #[trigger] known(k1, node, l) by {
        let ls = p.companion_layer(node as nat, l as nat);
        let ns = p.companion_node(node as nat, l as nat);
        lemma_node_geometry(p, node as nat, l as nat);
        lemma_companion_geometry(p, node as nat, l as nat);
        if ls != z {
            assert(complete(p, e, s, z, ls));
            assert(known(k0, node, l));
        } else {
            lemma_node_geometry(p, ns, z);
            assert(p.companion_node(ns, z) == node);
            assert(p.companion_layer(ns, z) == l);
            assert(p.plane_digit(z, ns / (p.q as nat)) == (node as nat) % (p.q as nat));
            assert(is_primary(p, e, ns, z));
            assert(known(
                k1,
                p.companion_node(ns, z) as int,
                p.companion_layer(ns, z) as int,
            ));
        }
    }
}

/// Every known uncoupled value that was computed with the uncoupled value
/// of an erased companion drew on a complete layer.
pub open spec fn drew_on_complete(
    p: EncodeParams,
    e: Set<usize>,
    k: Seq<Seq<bool>>,
    s: nat,
    zc: nat,
) -> bool {
    forall|n: int, z: int|
        0 <= n < p.nodes() && 0 <= z < p.sub_chunk_no && #[trigger] known(k, n, z) && !e.contains(
            n as usize,
        ) && e.contains(p.companion_node(n as nat, z as nat) as usize) ==> complete(
            p,
            e,
            s,
            zc,
            p.companion_layer(n as nat, z as nat),
        )
}

/// Every known uncoupled value of a node that is not erased is what phase
/// A makes it.
pub open spec fn uncoupled_known(
    p: EncodeParams,
    size: nat,
    e: Set<usize>,
    c: Seq<Seq<u8>>,
    u: Seq<Seq<u8>>,
    k: Seq<Seq<bool>>,
) -> bool {
    forall|n: int, z: int|
        0 <= n < p.nodes() && 0 <= z < p.sub_chunk_no && known(k, n, z) && !e.contains(n as usize)
            ==> #[trigger] uncoupled_ok(p, size, e, c, u, n, z)
}

/// Every complete layer of the uncoupled buffer is what phase B makes it.
pub open spec fn layers_settled(
    p: EncodeParams,
    size: nat,
    e: Set<usize>,
    u: Seq<Seq<u8>>,
    s: nat,
    zc: nat,
) -> bool {
    forall|z: int|
        0 <= z < p.sub_chunk_no && complete(p, e, s, zc, z as nat) ==> #[trigger] layer_determined(
            p,
            size,
            e,
            u,
            z,
        ) && (parity_erased(p, e) ==> is_layer_codeword(p, layer(u, z, size, p.nodes())))
}

/// Whether phase C has set the coupled value of the erased vertex
/// `(n, z)` when it, working on the layers of score `s`, has come to node
/// `nc` of layer `zc`. Of two erased companions, the one with the smaller x
/// is set together with the other.
pub open spec fn coupled_done(
    p: EncodeParams,
    e: Set<usize>,
    s: nat,
    zc: nat,
    nc: nat,
    n: nat,
    z: nat,
) -> bool {
    let ns = p.companion_node(n, z);
    let zs = p.companion_layer(n, z);
    score(p, e, z) < s || (score(p, e, z) == s && (z < zc || (z == zc && n < nc) || (e.contains(
        ns as usize,
    ) && n % (p.q as nat) < p.plane_digit(z, n / (p.q as nat)) && (zs < zc || (zs == zc && ns
        < nc)))))
}

/// Every coupled value that phase C has set is what phase C makes it.
pub open spec fn coupled_set(
    p: EncodeParams,
    size: nat,
    e: Set<usize>,
    c: Seq<Seq<u8>>,
    u: Seq<Seq<u8>>,
    s: nat,
    zc: nat,
    nc: nat,
) -> bool {
    forall|n: int, z: int|
        0 <= n < p.nodes() && 0 <= z < p.sub_chunk_no && e.contains(n as usize) && coupled_done(
            p,
            e,
            s,
            zc,
            nc,
            n as nat,
            z as nat,
        ) ==> #[trigger] coupled_ok(p, size, e, c, u, n, z)
}

/// A layer that no cell of which has changed is still what phase B made
/// it.
pub proof fn lemma_layer_frame(
    p: EncodeParams,
    size: nat,
    e: Set<usize>,
    u: Seq<Seq<u8>>,
    u2: Seq<Seq<u8>>,
    z: int,
)
    requires
        forall|n: int| 0 <= n < p.nodes() ==> cell(u2, n, z, size) == cell(u, n, z, size),
        layer_determined(p, size, e, u, z),
    ensures
        layer_determined(p, size, e, u2, z),
        layer(u2, z, size, p.nodes()) == layer(u, z, size, p.nodes()),
{
    assert(layer(u2, z, size, p.nodes()) =~= layer(u, z, size, p.nodes()));
    assert forall|word: Seq<Seq<u8>>| #[trigger]
        layer_agrees(p, size, u2, e, z, word) && is_layer_codeword(p, word) implies layer(
        u2,
        z,
        size,
        p.nodes(),
    ) == word by {
        assert(layer_agrees(p, size, u, e, z, word));
    }
}

/// The settled layers stay settled while only cells of layers that are not
/// complete change.
pub proof fn lemma_layers_settled_frame(
    p: EncodeParams,
    size: nat,
    e: Set<usize>,
    u: Seq<Seq<u8>>,
    u2: Seq<Seq<u8>>,
    s: nat,
    zc: nat,
)
    requires
        layers_settled(p, size, e, u, s, zc),
        forall|n: int, z: int|
            0 <= n < p.nodes() && 0 <= z < p.sub_chunk_no && complete(p, e, s, zc, z as nat)
                ==> #[trigger] cell(u2, n, z, size) == cell(u, n, z, size),
    ensures
        layers_settled(p, size, e, u2, s, zc),
{
    assert forall|z: int|
        0 <= z < p.sub_chunk_no && complete(p, e, s, zc, z as nat) implies #[trigger] layer_determined(
        p,
        size,
        e,
        u2,
        z,
    ) && (parity_erased(p, e) ==> is_layer_codeword(p, layer(u2, z, size, p.nodes()))) by {
        assert(layer_determined(p, size, e, u, z));
        assert forall|n: int| 0 <= n < p.nodes() implies cell(u2, n, z, size) == cell(
            u,
            n,
            z,
            size,
        ) by {
            assert(cell(u2, n, z, size) == cell(u, n, z, size));
        }
        lemma_layer_frame(p, size, e, u, u2, z);
    }
}

/// The coupled values that phase C has set stay what they are while only
/// cells of the uncoupled buffer in layers that are not complete change:
/// phase C draws on complete layers alone.
pub proof fn lemma_coupled_set_frame(
    p: EncodeParams,
    size: nat,
    e: Set<usize>,
    c: Seq<Seq<u8>>,
    u: Seq<Seq<u8>>,
    u2: Seq<Seq<u8>>,
    s: nat,
    zc: nat,
)
    requires
        p.wf(),
        coupled_set(p, size, e, c, u, s, 0, 0),
        forall|n: int, z: int|
            0 <= n < p.nodes() && 0 <= z < p.sub_chunk_no && complete(p, e, s, zc, z as nat)
                ==> #[trigger] cell(u2, n, z, size) == cell(u, n, z, size),
    ensures
        coupled_set(p, size, e, c, u2, s, 0, 0),
{
    assert forall|n: int, z: int|
        0 <= n < p.nodes() && 0 <= z < p.sub_chunk_no && e.contains(n as usize) && coupled_done(
            p,
            e,
            s,
            0,
            0,
            n as nat,
            z as nat,
        ) implies #[trigger] coupled_ok(p, size, e, c, u2, n, z) by {
        lemma_node_geometry(p, n as nat, z as nat);
        lemma_companion_geometry(p, n as nat, z as nat);
        lemma_score_of_companion(p, e, n as nat, z as nat);
        let ns = p.companion_node(n as nat, z as nat) as int;
        let zs = p.companion_layer(n as nat, z as nat) as int;
        assert(coupled_ok(p, size, e, c, u, n, z));
        assert(complete(p, e, s, zc, z as nat));
        assert(cell(u2, n, z, size) == cell(u, n, z, size));
        if e.contains(ns as usize) {
            assert(complete(p, e, s, zc, zs as nat));
            assert(cell(u2, ns, zs, size) == cell(u, ns, zs, size));
        }
    }
}

/// The known uncoupled values and the settled layers do not depend on the
/// coupled values of the erased nodes.
pub proof fn lemma_uncoupled_known_frame(
    p: EncodeParams,
    size: nat,
    e: Set<usize>,
    c: Seq<Seq<u8>>,
    c2: Seq<Seq<u8>>,
    u: Seq<Seq<u8>>,
    k: Seq<Seq<bool>>,
)
    requires
        p.wf(),
        uncoupled_known(p, size, e, c, u, k),
        forall|n: int| 0 <= n < p.nodes() && !e.contains(n as usize) ==> #[trigger] c2[n] == c[n],
    ensures
        uncoupled_known(p, size, e, c2, u, k),
{
    assert forall|n: int, z: int|
        0 <= n < p.nodes() && 0 <= z < p.sub_chunk_no && known(k, n, z) && !e.contains(
            n as usize,
        ) implies #[trigger] uncoupled_ok(p, size, e, c2, u, n, z) by {
        lemma_node_geometry(p, n as nat, z as nat);
        let ns = p.companion_node(n as nat, z as nat) as int;
        assert(uncoupled_ok(p, size, e, c, u, n, z));
        assert(c2[n] == c[n]);
        if !e.contains(ns as usize) {
            assert(c2[ns] == c[ns]);
        }
    }
}

/// One step of phase A keeps what is known in order. The step works on a
/// vertex `(node, z)` that is not erased, in a layer of the current score.
/// It writes and marks that vertex and, if `pair` says so, its companion,
/// which is then not erased either.
pub proof fn lemma_phase_a_step(
    p: EncodeParams,
    size: nat,
    e: Set<usize>,
    c: Seq<Seq<u8>>,
    u: Seq<Seq<u8>>,
    u2: Seq<Seq<u8>>,
    k: Seq<Seq<bool>>,
    k2: Seq<Seq<bool>>,
    node: int,
    z: int,
    pair: bool,
)
    requires
        p.wf(),
        0 <= node < p.nodes(),
        0 <= z < p.sub_chunk_no,
        !e.contains(node as usize),
        pair ==> !e.contains(p.companion_node(node as nat, z as nat) as usize),
        uncoupled_known(p, size, e, c, u, k),
        drew_on_complete(p, e, k, score(p, e, z as nat), z as nat),
        forall|n: int, l: int|
            0 <= n < p.nodes() && 0 <= l < p.sub_chunk_no && #[trigger] known(k2, n, l) && !known(
                k,
                n,
                l,
            ) ==> (n == node && l == z) || (pair && n == p.companion_node(node as nat, z as nat)
                && l == p.companion_layer(node as nat, z as nat)),
        forall|n: int, l: int|
            0 <= n < p.nodes() && 0 <= l < p.sub_chunk_no && !(n == node && l == z) && !(pair && n
                == p.companion_node(node as nat, z as nat) && l == p.companion_layer(
                node as nat,
                z as nat,
            )) ==> #[trigger] cell(u2, n, l, size) == cell(u, n, l, size),
        known(k2, node, z) ==> uncoupled_ok(p, size, e, c, u2, node, z),
        pair ==> uncoupled_ok(
            p,
            size,
            e,
            c,
            u2,
            p.companion_node(node as nat, z as nat) as int,
            p.companion_layer(node as nat, z as nat) as int,
        ),
        e.contains(p.companion_node(node as nat, z as nat) as usize) && known(k2, node, z)
            ==> complete(
            p,
            e,
            score(p, e, z as nat),
            z as nat,
            p.companion_layer(node as nat, z as nat),
        ),
    ensures
        uncoupled_known(p, size, e, c, u2, k2),
        drew_on_complete(p, e, k2, score(p, e, z as nat), z as nat),
{
    let s = score(p, e, z as nat);
    let ns = p.companion_node(node as nat, z as nat) as int;
    let zs = p.companion_layer(node as nat, z as nat) as int;
    lemma_node_geometry(p, node as nat, z as nat);
    lemma_companion_geometry(p, node as nat, z as nat);
    assert forall|n: int, l: int|
        0 <= n < p.nodes() && 0 <= l < p.sub_chunk_no && known(k2, n, l) && !e.contains(
            n as usize,
        ) implies #[trigger] uncoupled_ok(p, size, e, c, u2, n, l) by {
        if n == node && l == z {
        } else if pair && n == ns && l == zs {
        } else {
            assert(known(k, n, l));
            assert(uncoupled_ok(p, size, e, c, u, n, l));
            lemma_node_geometry(p, n as nat, l as nat);
            lemma_companion_geometry(p, n as nat, l as nat);
            let n2 = p.companion_node(n as nat, l as nat) as int;
            let l2 = p.companion_layer(n as nat, l as nat) as int;
            assert(cell(u2, n, l, size) == cell(u, n, l, size));
            if e.contains(n2 as usize) {
                assert(cell(u2, n2, l2, size) == cell(u, n2, l2, size));
            }
        }
    }
    assert forall|n: int, l: int|
        0 <= n < p.nodes() && 0 <= l < p.sub_chunk_no && #[trigger] known(k2, n, l) && !e.contains(
            n as usize,
        ) && e.contains(p.companion_node(n as nat, l as nat) as usize) implies complete(
        p,
        e,
        s,
        z as nat,
        p.companion_layer(n as nat, l as nat),
    ) by {
        if n == node && l == z {
        } else if pair && n == ns && l == zs {
            lemma_node_geometry(p, ns as nat, zs as nat);
        } else {
            assert(known(k, n, l));
        }
    }
}

/// Phase B keeps what is known of the nodes that are not erased in order:
/// it writes sub-chunks of erased nodes in the layer it works on, and no
/// known value has drawn on that layer yet.
pub proof fn lemma_phase_b_step(
    p: EncodeParams,
    size: nat,
    e: Set<usize>,
    c: Seq<Seq<u8>>,
    u: Seq<Seq<u8>>,
    u2: Seq<Seq<u8>>,
    k: Seq<Seq<bool>>,
    z: int,
)
    requires
        p.wf(),
        0 <= z < p.sub_chunk_no,
        uncoupled_known(p, size, e, c, u, k),
        drew_on_complete(p, e, k, score(p, e, z as nat), z as nat),
        forall|n: int, l: int|
            0 <= n < p.nodes() && 0 <= l < p.sub_chunk_no && (l != z || !e.contains(n as usize))
                ==> #[trigger] cell(u2, n, l, size) == cell(u, n, l, size),
    ensures
        uncoupled_known(p, size, e, c, u2, k),
{
    assert forall|n: int, l: int|
        0 <= n < p.nodes() && 0 <= l < p.sub_chunk_no && known(k, n, l) && !e.contains(
            n as usize,
        ) implies #[trigger] uncoupled_ok(p, size, e, c, u2, n, l) by {
        assert(uncoupled_ok(p, size, e, c, u, n, l));
        lemma_node_geometry(p, n as nat, l as nat);
        lemma_companion_geometry(p, n as nat, l as nat);
        let n2 = p.companion_node(n as nat, l as nat) as int;
        let l2 = p.companion_layer(n as nat, l as nat) as int;
        assert(cell(u2, n, l, size) == cell(u, n, l, size));
        if e.contains(n2 as usize) {
            assert(complete(p, e, score(p, e, z as nat), z as nat, l2 as nat));
            assert(cell(u2, n2, l2, size) == cell(u, n2, l2, size));
        }
    }
}

/// Marking values of erased nodes as known changes nothing for the nodes
/// that are not erased.
pub proof fn lemma_mark_erased(
    p: EncodeParams,
    size: nat,
    e: Set<usize>,
    c: Seq<Seq<u8>>,
    u: Seq<Seq<u8>>,
    k: Seq<Seq<bool>>,
    k2: Seq<Seq<bool>>,
    s: nat,
    zc: nat,
)
    requires
        uncoupled_known(p, size, e, c, u, k),
        drew_on_complete(p, e, k, s, zc),
        forall|n: int, l: int|
            0 <= n < p.nodes() && 0 <= l < p.sub_chunk_no && #[trigger] known(k2, n, l)
                && !e.contains(n as usize) ==> known(k, n, l),
    ensures
        uncoupled_known(p, size, e, c, u, k2),
        drew_on_complete(p, e, k2, s, zc),
{
    assert forall|n: int, l: int|
        0 <= n < p.nodes() && 0 <= l < p.sub_chunk_no && known(k2, n, l) && !e.contains(
            n as usize,
        ) implies #[trigger] uncoupled_ok(p, size, e, c, u, n, l) by {
        assert(known(k, n, l));
    }
    assert forall|n: int, l: int|
        0 <= n < p.nodes() && 0 <= l < p.sub_chunk_no && #[trigger] known(k2, n, l) && !e.contains(
            n as usize,
        ) && e.contains(p.companion_node(n as nat, l as nat) as usize) implies complete(
        p,
        e,
        s,
        zc,
        p.companion_layer(n as nat, l as nat),
    ) by {
        assert(known(k, n, l));
    }
}

/// When a layer of the current score is done, what held of the complete
/// layers holds of them and of the new one.
pub proof fn lemma_settled_advance(
    p: EncodeParams,
    size: nat,
    e: Set<usize>,
    u: Seq<Seq<u8>>,
    u2: Seq<Seq<u8>>,
    k: Seq<Seq<bool>>,
    z: nat,
)
    requires
        p.wf(),
        z < p.sub_chunk_no,
        layers_settled(p, size, e, u, score(p, e, z), z),
        drew_on_complete(p, e, k, score(p, e, z), z),
        forall|n: int, l: int|
            0 <= n < p.nodes() && 0 <= l < p.sub_chunk_no && complete(
                p,
                e,
                score(p, e, z),
                z,
                l as nat,
            ) ==> #[trigger] cell(u2, n, l, size) == cell(u, n, l, size),
        layer_determined(p, size, e, u2, z as int),
        parity_erased(p, e) ==> is_layer_codeword(p, layer(u2, z as int, size, p.nodes())),
    ensures
        layers_settled(p, size, e, u2, score(p, e, z), z + 1),
        drew_on_complete(p, e, k, score(p, e, z), z + 1),
{
    let s = score(p, e, z);
    lemma_layers_settled_frame(p, size, e, u, u2, s, z);
    assert forall|l: int|
        0 <= l < p.sub_chunk_no && complete(p, e, s, z + 1, l as nat) implies #[trigger] layer_determined(
        p,
        size,
        e,
        u2,
        l,
    ) && (parity_erased(p, e) ==> is_layer_codeword(p, layer(u2, l, size, p.nodes()))) by {
        if l != z {
            assert(complete(p, e, s, z, l as nat));
            assert(layer_determined(p, size, e, u2, l));
        }
    }
    assert forall|n: int, l: int|
        0 <= n < p.nodes() && 0 <= l < p.sub_chunk_no && #[trigger] known(k, n, l) && !e.contains(
            n as usize,
        ) && e.contains(p.companion_node(n as nat, l as nat) as usize) implies complete(
        p,
        e,
        s,
        z + 1,
        p.companion_layer(n as nat, l as nat),
    ) by {
        assert(complete(p, e, s, z, p.companion_layer(n as nat, l as nat)));
    }
}

/// A layer of another score than the current one is passed over.
pub proof fn lemma_settled_skip(
    p: EncodeParams,
    size: nat,
    e: Set<usize>,
    u: Seq<Seq<u8>>,
    k: Seq<Seq<bool>>,
    s: nat,
    zc: nat,
)
    requires
        layers_settled(p, size, e, u, s, zc),
        drew_on_complete(p, e, k, s, zc),
        score(p, e, zc) != s,
    ensures
        layers_settled(p, size, e, u, s, zc + 1),
        drew_on_complete(p, e, k, s, zc + 1),
{
    assert forall|l: int|
        0 <= l < p.sub_chunk_no && complete(p, e, s, zc + 1, l as nat) implies #[trigger] layer_determined(
        p,
        size,
        e,
        u,
        l,
    ) && (parity_erased(p, e) ==> is_layer_codeword(p, layer(u, l, size, p.nodes()))) by {
        assert(complete(p, e, s, zc, l as nat));
    }
    assert forall|n: int, l: int|
        0 <= n < p.nodes() && 0 <= l < p.sub_chunk_no && #[trigger] known(k, n, l) && !e.contains(
            n as usize,
        ) && e.contains(p.companion_node(n as nat, l as nat) as usize) implies complete(
        p,
        e,
        s,
        zc + 1,
        p.companion_layer(n as nat, l as nat),
    ) by {
        assert(complete(p, e, s, zc, p.companion_layer(n as nat, l as nat)));
    }
}

/// After the last layer of a score the decoder goes on to the next score.
pub proof fn lemma_settled_next_score(
    p: EncodeParams,
    size: nat,
    e: Set<usize>,
    u: Seq<Seq<u8>>,
    k: Seq<Seq<bool>>,
    s: nat,
)
    requires
        p.wf(),
        layers_settled(p, size, e, u, s, p.sub_chunk_no as nat),
        drew_on_complete(p, e, k, s, p.sub_chunk_no as nat),
    ensures
        layers_settled(p, size, e, u, s + 1, 0),
        drew_on_complete(p, e, k, s + 1, 0),
{
    assert forall|l: int|
        0 <= l < p.sub_chunk_no && complete(p, e, s + 1, 0, l as nat) implies #[trigger] layer_determined(
        p,
        size,
        e,
        u,
        l,
    ) && (parity_erased(p, e) ==> is_layer_codeword(p, layer(u, l, size, p.nodes()))) by {
        assert(complete(p, e, s, p.sub_chunk_no as nat, l as nat));
    }
    assert forall|n: int, l: int|
        0 <= n < p.nodes() && 0 <= l < p.sub_chunk_no && #[trigger] known(k, n, l) && !e.contains(
            n as usize,
        ) && e.contains(p.companion_node(n as nat, l as nat) as usize) implies complete(
        p,
        e,
        s + 1,
        0,
        p.companion_layer(n as nat, l as nat),
    ) by {
        assert(complete(p, e, s, p.sub_chunk_no as nat, p.companion_layer(n as nat, l as nat)));
    }
}

/// Whether the erased vertex `(n, z)` is the one of two erased companions
/// with the smaller x.
pub open spec fn is_erased_secondary(p: EncodeParams, e: Set<usize>, n: nat, z: nat) -> bool {
    &&& e.contains(p.companion_node(n, z) as usize)
    &&& n % (p.q as nat) < p.plane_digit(z, n / (p.q as nat))
}

/// One step of phase C keeps the coupled values that are set in order. The
/// step works on the erased vertex `(node, z)` in a layer of the current
/// score. It writes that vertex and, if `pair` says so, its erased
/// companion; a vertex that is the one with the smaller x of two erased
/// companions it leaves alone.
pub proof fn lemma_phase_c_step(
    p: EncodeParams,
    size: nat,
    e: Set<usize>,
    c: Seq<Seq<u8>>,
    c2: Seq<Seq<u8>>,
    u: Seq<Seq<u8>>,
    node: int,
    z: int,
    pair: bool,
)
    requires
        p.wf(),
        0 <= node < p.nodes(),
        0 <= z < p.sub_chunk_no,
        e.contains(node as usize),
        coupled_set(p, size, e, c, u, score(p, e, z as nat), z as nat, node as nat),
        pair <==> e.contains(p.companion_node(node as nat, z as nat) as usize) && node as nat % (
        p.q as nat) > p.plane_digit(z as nat, node as nat / (p.q as nat)),
        forall|n: int, l: int|
            0 <= n < p.nodes() && 0 <= l < p.sub_chunk_no && !(n == node && l == z) && !(pair && n
                == p.companion_node(node as nat, z as nat) && l == p.companion_layer(
                node as nat,
                z as nat,
            )) ==> #[trigger] cell(c2, n, l, size) == cell(c, n, l, size),
        is_erased_secondary(p, e, node as nat, z as nat) ==> cell(c2, node, z, size) == cell(
            c,
            node,
            z,
            size,
        ),
        !is_erased_secondary(p, e, node as nat, z as nat) ==> coupled_ok(
            p,
            size,
            e,
            c2,
            u,
            node,
            z,
        ),
        pair ==> coupled_ok(
            p,
            size,
            e,
            c2,
            u,
            p.companion_node(node as nat, z as nat) as int,
            p.companion_layer(node as nat, z as nat) as int,
        ),
    ensures
        coupled_set(p, size, e, c2, u, score(p, e, z as nat), z as nat, (node + 1) as nat),
{
    let s = score(p, e, z as nat);
    let ns = p.companion_node(node as nat, z as nat) as int;
    let zs = p.companion_layer(node as nat, z as nat) as int;
    lemma_node_geometry(p, node as nat, z as nat);
    lemma_companion_geometry(p, node as nat, z as nat);
    assert forall|n: int, l: int|
        0 <= n < p.nodes() && 0 <= l < p.sub_chunk_no && e.contains(n as usize) && coupled_done(
            p,
            e,
            s,
            z as nat,
            (node + 1) as nat,
            n as nat,
            l as nat,
        ) implies #[trigger] coupled_ok(p, size, e, c2, u, n, l) by {
        lemma_node_geometry(p, n as nat, l as nat);
        lemma_companion_geometry(p, n as nat, l as nat);
        let n2 = p.companion_node(n as nat, l as nat) as int;
        let l2 = p.companion_layer(n as nat, l as nat) as int;
        if n == node && l == z {
            if is_erased_secondary(p, e, node as nat, z as nat) {
                assert(coupled_done(p, e, s, z as nat, node as nat, n as nat, l as nat));
                assert(coupled_ok(p, size, e, c, u, n, l));
            }
        } else if pair && n == ns && l == zs {
        } else {
            if is_erased_secondary(p, e, n as nat, l as nat) && l2 == z && n2 == node {
                // the companion of the vertex worked on: written with it
                assert(n == ns && l == zs);
                assert(p.is_red(n as nat, z as nat));
                assert(pair);
            }
            assert(coupled_done(p, e, s, z as nat, node as nat, n as nat, l as nat));
            assert(coupled_ok(p, size, e, c, u, n, l));
            assert(cell(c2, n, l, size) == cell(c, n, l, size));
            if !e.contains(n2 as usize) {
                assert(cell(c2, n2, l2, size) == cell(c, n2, l2, size));
            }
        }
    }
}

/// Phase C passes over a node that is not erased.
pub proof fn lemma_phase_c_pass(
    p: EncodeParams,
    size: nat,
    e: Set<usize>,
    c: Seq<Seq<u8>>,
    u: Seq<Seq<u8>>,
    s: nat,
    z: nat,
    node: nat,
)
    requires
        !e.contains(node as usize),
        node < p.nodes(),
        p.nodes() <= usize::MAX,
        coupled_set(p, size, e, c, u, s, z, node),
    ensures
        coupled_set(p, size, e, c, u, s, z, node + 1),
{
    assert forall|n: int, l: int|
        0 <= n < p.nodes() && 0 <= l < p.sub_chunk_no && e.contains(n as usize) && coupled_done(
            p,
            e,
            s,
            z,
            node + 1,
            n as nat,
            l as nat,
        ) implies #[trigger] coupled_ok(p, size, e, c, u, n, l) by {
        assert(coupled_done(p, e, s, z, node, n as nat, l as nat));
    }
}

/// When phase C is done with a layer, it goes on to the next.
pub proof fn lemma_coupled_next_layer(
    p: EncodeParams,
    size: nat,
    e: Set<usize>,
    c: Seq<Seq<u8>>,
    u: Seq<Seq<u8>>,
    s: nat,
    z: nat,
)
    requires
        p.wf(),
        coupled_set(p, size, e, c, u, s, z, p.nodes()),
    ensures
        coupled_set(p, size, e, c, u, s, z + 1, 0),
{
    assert forall|n: int, l: int|
        0 <= n < p.nodes() && 0 <= l < p.sub_chunk_no && e.contains(n as usize) && coupled_done(
            p,
            e,
            s,
            z + 1,
            0,
            n as nat,
            l as nat,
        ) implies #[trigger] coupled_ok(p, size, e, c, u, n, l) by {
        lemma_node_geometry(p, n as nat, l as nat);
        assert(coupled_done(p, e, s, z, p.nodes(), n as nat, l as nat));
    }
}

/// Phase C passes over a layer of another score than the current one.
pub proof fn lemma_coupled_skip(
    p: EncodeParams,
    size: nat,
    e: Set<usize>,
    c: Seq<Seq<u8>>,
    u: Seq<Seq<u8>>,
    s: nat,
    z: nat,
)
    requires
        p.wf(),
        z < p.sub_chunk_no,
        score(p, e, z) != s,
        coupled_set(p, size, e, c, u, s, z, 0),
    ensures
        coupled_set(p, size, e, c, u, s, z + 1, 0),
{
    assert forall|n: int, l: int|
        0 <= n < p.nodes() && 0 <= l < p.sub_chunk_no && e.contains(n as usize) && coupled_done(
            p,
            e,
            s,
            z + 1,
            0,
            n as nat,
            l as nat,
        ) implies #[trigger] coupled_ok(p, size, e, c, u, n, l) by {
        lemma_node_geometry(p, n as nat, l as nat);
        lemma_companion_geometry(p, n as nat, l as nat);
        lemma_score_of_companion(p, e, n as nat, l as nat);
        assert(coupled_done(p, e, s, z, 0, n as nat, l as nat));
    }
}

/// After the last layer of a score, phase C is done with all layers of
/// that score.
pub proof fn lemma_coupled_next_score(
    p: EncodeParams,
    size: nat,
    e: Set<usize>,
    c: Seq<Seq<u8>>,
    u: Seq<Seq<u8>>,
    s: nat,
)
    requires
        coupled_set(p, size, e, c, u, s, p.sub_chunk_no as nat, 0),
    ensures
        coupled_set(p, size, e, c, u, s + 1, 0, 0),
{
    assert forall|n: int, l: int|
        0 <= n < p.nodes() && 0 <= l < p.sub_chunk_no && e.contains(n as usize) && coupled_done(
            p,
            e,
            s + 1,
            0,
            0,
            n as nat,
            l as nat,
        ) implies #[trigger] coupled_ok(p, size, e, c, u, n, l) by {
        assert(coupled_done(p, e, s, p.sub_chunk_no as nat, 0, n as nat, l as nat));
    }
}

} // verus!
