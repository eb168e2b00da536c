//! What a repair leaves behind, and why it is the lost chunk.
//!
//! A repair works on the layers in which the lost node is red. In each of
//! them it uncouples the sub-chunks of the helpers outside the lost node's
//! y-section, recovers the uncoupled values of that y-section and of the
//! aloof nodes with the scalar code, and reads the lost node's sub-chunks
//! off: its own uncoupled value in the layer, and for every other node of
//! its y-section the coupled value of the pair that this node forms with
//! the lost node.

use vstd::prelude::*;
use crate::codeword::{
    is_clay_codeword,
    is_layer_codeword,
    layer,
    layer_agrees,
    layer_determined,
    lemma_cell_len,
    lemma_rows_equal,
    ucell,
    ulayer,
};
use crate::encode::EncodeParams;
use crate::layout::{cell, has_shape, row_cell};
use crate::planes::{
    lemma_companion_geometry,
    lemma_node_geometry,
    lemma_score_bound,
    lemma_score_of_companion,
    red_node,
    score,
};
use crate::repair::{
    repair_complete,
    helper_cell,
    lemma_repair_layers,
    repair_index,
    repair_layer,
    sibling,
};
use crate::tracking::known;
use crate::transforms::{cstar_of_c_and_u, lemma_partial_formulas, mix, u_of_c_and_ustar};

verus! {

/// The sub-chunk that the row of a helper holds for layer `z`.
pub open spec fn hcell(
    p: EncodeParams,
    size: nat,
    lost: nat,
    h: Seq<Option<Vec<u8>>>,
    node: int,
    z: int,
) -> Seq<u8> {
    helper_cell(h, node, repair_index(p, lost, z as nat) as int, size)
}

/// Whether the uncoupled value of a helper outside the lost node's
/// y-section is what the repair computes: the coupled value of a red
/// vertex; for a vertex with an aloof companion, the value that its
/// coupled value and the companion's uncoupled value give; for two
/// helpers, the transform of both coupled values.
pub open spec fn helper_uncoupled_ok(
    p: EncodeParams,
    size: nat,
    lost: nat,
    aloof: Set<usize>,
    h: Seq<Option<Vec<u8>>>,
    u: Seq<Seq<u8>>,
    node: int,
    z: int,
) -> bool {
    let ns = p.companion_node(node as nat, z as nat) as int;
    let zs = p.companion_layer(node as nat, z as nat) as int;
    cell(u, node, z, size) == if p.is_red(node as nat, z as nat) {
        hcell(p, size, lost, h, node, z)
    } else if aloof.contains(ns as usize) {
        u_of_c_and_ustar(hcell(p, size, lost, h, node, z), cell(u, ns, zs, size))
    } else {
        mix(hcell(p, size, lost, h, node, z), hcell(p, size, lost, h, ns, zs))
    }
}

/// Whether the recovered chunk holds what layer `z`, in which the lost
/// node is red, gives of it: the lost node's uncoupled value in `z`, and,
/// for every other node of its y-section with a row of helper data, the
/// coupled value that the lost node has as that node's companion.
pub open spec fn lost_ok(
    p: EncodeParams,
    size: nat,
    lost: nat,
    h: Seq<Option<Vec<u8>>>,
    u: Seq<Seq<u8>>,
    r: Seq<u8>,
    z: int,
) -> bool {
    &&& row_cell(r, z, size) == cell(u, lost as int, z, size)
    &&& forall|x: nat|
        x < p.q && sibling(p, lost, x) != lost && h[sibling(p, lost, x) as int] is Some
            ==> #[trigger] row_cell(
            r,
            p.companion_layer(sibling(p, lost, x), z as nat) as int,
            size,
        ) == cstar_of_c_and_u(
            hcell(p, size, lost, h, sibling(p, lost, x) as int, z),
            cell(u, sibling(p, lost, x) as int, z, size),
        )
}

/// What a repair leaves behind: the uncoupled buffer `u` that it worked
/// with and the chunk `r` that it recovered, for the rows `h` of helper
/// data.
pub open spec fn repaired(
    p: EncodeParams,
    size: nat,
    lost: nat,
    aloof: Set<usize>,
    base: Set<usize>,
    h: Seq<Option<Vec<u8>>>,
    u: Seq<Seq<u8>>,
    r: Seq<u8>,
) -> bool {
    &&& has_shape(u, p.nodes(), p.sub_chunk_no as nat, size)
    &&& r.len() == p.sub_chunk_no * size
    &&& forall|n: int, z: int|
        0 <= n < p.nodes() && 0 <= z < p.sub_chunk_no && p.is_red(lost, z as nat)
            && !base.contains(n as usize) ==> #[trigger] helper_uncoupled_ok(
            p,
            size,
            lost,
            aloof,
            h,
            u,
            n,
            z,
        )
    &&& forall|z: int|
        0 <= z < p.sub_chunk_no && p.is_red(lost, z as nat) ==> #[trigger] layer_determined(
            p,
            size,
            base,
            u,
            z,
        )
    &&& forall|z: int|
        0 <= z < p.sub_chunk_no && p.is_red(lost, z as nat) ==> #[trigger] lost_ok(
            p,
            size,
            lost,
            h,
            u,
            r,
            z,
        )
}

/// Whether every row of helper data holds the sub-chunks of the code word
/// `word` for the layers in which the lost node is red, in their order.
pub open spec fn helpers_hold(
    p: EncodeParams,
    size: nat,
    lost: nat,
    h: Seq<Option<Vec<u8>>>,
    word: Seq<Seq<u8>>,
) -> bool {
    forall|node: int, i: int|
        0 <= node < p.nodes() && h[node] is Some && node != lost && 0 <= i < p.sub_chunk_no / p.q
            ==> #[trigger] helper_cell(h, node, i, size) == cell(
            word,
            node,
            repair_layer(p, lost, i as nat) as int,
            size,
        )
}

/// Whether the nodes are what the repair takes them for: the aloof nodes
/// are the nodes without a row of helper data, the lost node left out and
/// none of them in its y-section; the base nodes are that y-section and
/// the aloof nodes.
pub open spec fn roles_ok(
    p: EncodeParams,
    lost: nat,
    aloof: Set<usize>,
    base: Set<usize>,
    h: Seq<Option<Vec<u8>>>,
) -> bool {
    &&& h.len() == p.nodes()
    &&& forall|n: int|
        0 <= n < p.nodes() && n != lost ==> (aloof.contains(n as usize) <==> (#[trigger] h[n])
            is None)
    &&& !aloof.contains(lost as usize)
    &&& forall|n: usize|
        n < p.nodes() ==> (#[trigger] base.contains(n) <==> n as nat / (p.q as nat) == lost / (
        p.q as nat) || aloof.contains(n))
    &&& forall|n: usize|
        n < p.nodes() && #[trigger] aloof.contains(n) ==> n as nat / (p.q as nat) != lost / (
        p.q as nat)
}

/// The sub-chunk that a helper row holds for a layer in which the lost
/// node is red is that of the code word.
proof fn lemma_hcell(
    p: EncodeParams,
    size: nat,
    lost: nat,
    h: Seq<Option<Vec<u8>>>,
    word: Seq<Seq<u8>>,
    node: int,
    z: int,
)
    requires
        p.wf(),
        lost < p.nodes(),
        helpers_hold(p, size, lost, h, word),
        0 <= node < p.nodes(),
        node != lost,
        h[node] is Some,
        0 <= z < p.sub_chunk_no,
        p.is_red(lost, z as nat),
    ensures
        hcell(p, size, lost, h, node, z) == cell(word, node, z, size),
{
    lemma_repair_layers(p, lost);
    let i = repair_index(p, lost, z as nat);
    assert(repair_layer(p, lost, i) == z);
    assert(helper_cell(h, node, i as int, size) == cell(
        word,
        node,
        repair_layer(p, lost, i) as int,
        size,
    ));
}

/// Where the helpers handed over sub-chunks of a code word, the repair's
/// uncoupled buffer holds the uncoupled values of that code word in every
/// layer in which the lost node is red and fewer than `s` aloof nodes are.
pub proof fn lemma_repaired_uncoupled(
    p: EncodeParams,
    size: nat,
    lost: nat,
    aloof: Set<usize>,
    base: Set<usize>,
    h: Seq<Option<Vec<u8>>>,
    u: Seq<Seq<u8>>,
    r: Seq<u8>,
    word: Seq<Seq<u8>>,
    s: nat,
)
    requires
        p.wf(),
        lost < p.nodes(),
        repaired(p, size, lost, aloof, base, h, u, r),
        roles_ok(p, lost, aloof, base, h),
        is_clay_codeword(p, size, word),
        helpers_hold(p, size, lost, h, word),
    ensures
        forall|n: int, z: int|
            0 <= n < p.nodes() && 0 <= z < p.sub_chunk_no && p.is_red(lost, z as nat) && score(
                p,
                aloof,
                z as nat,
            ) < s ==> #[trigger] cell(u, n, z, size) == ucell(p, size, word, n, z),
    decreases s,
{
    if s > 0 {
        lemma_repaired_uncoupled(p, size, lost, aloof, base, h, u, r, word, (s - 1) as nat);
        p.lemma_wf();
        assert forall|z: int|
            0 <= z < p.sub_chunk_no && p.is_red(lost, z as nat) && score(p, aloof, z as nat) == s
                - 1 implies layer(u, z, size, p.nodes()) == ulayer(p, size, word, z) by {
            let w = ulayer(p, size, word, z);
            lemma_node_geometry(p, lost, z as nat);
            assert forall|n: int| 0 <= n < p.nodes() && !base.contains(n as usize) implies cell(
                u,
                n,
                z,
                size,
            ) == #[trigger] w[n] by {
                lemma_node_geometry(p, n as nat, z as nat);
                lemma_companion_geometry(p, n as nat, z as nat);
                lemma_score_of_companion(p, aloof, n as nat, z as nat);
                let ns = p.companion_node(n as nat, z as nat) as int;
                let zs = p.companion_layer(n as nat, z as nat) as int;
                assert(helper_uncoupled_ok(p, size, lost, aloof, h, u, n, z));
                assert(base.contains(n as usize) <==> n as nat / (p.q as nat) == lost / (
                p.q as nat) || aloof.contains(n as usize));
                assert(h[n] is Some);
                lemma_hcell(p, size, lost, h, word, n, z);
                if !p.is_red(n as nat, z as nat) {
                    lemma_cell_len(p, size, word, n, z);
                    lemma_cell_len(p, size, word, ns, zs);
                    // the companion layer is one of the repair's layers too
                    assert(red_node(p, zs as nat, lost / (p.q as nat)) == red_node(
                        p,
                        z as nat,
                        lost / (p.q as nat),
                    ));
                    lemma_node_geometry(p, lost, zs as nat);
                    assert(p.is_red(lost, zs as nat));
                    lemma_node_geometry(p, ns as nat, zs as nat);
                    if aloof.contains(ns as usize) {
                        assert(cell(u, ns, zs, size) == ucell(p, size, word, ns, zs));
                        lemma_partial_formulas(cell(word, n, z, size), cell(word, ns, zs, size));
                    } else {
                        assert(h[ns] is Some);
                        lemma_hcell(p, size, lost, h, word, ns, zs);
                    }
                }
            }
            assert forall|n: int| 0 <= n < p.nodes() implies (#[trigger] w[n]).len() == size by {
                crate::codeword::lemma_ucell_len(p, size, word, n, z);
            }
            assert(layer_agrees(p, size, u, base, z, w));
            assert(is_layer_codeword(p, w));
            assert(layer_determined(p, size, base, u, z));
        }
        assert forall|n: int, z: int|
            0 <= n < p.nodes() && 0 <= z < p.sub_chunk_no && p.is_red(lost, z as nat) && score(
                p,
                aloof,
                z as nat,
            ) < s implies #[trigger] cell(u, n, z, size) == ucell(p, size, word, n, z) by {
            if score(p, aloof, z as nat) == s - 1 {
                assert(layer(u, z, size, p.nodes())[n] == ulayer(p, size, word, z)[n]);
            }
        }
    }
}

/// The repair recovers the lost chunk: where the helpers handed over the
/// sub-chunks of a code word, what the repair leaves behind is the chunk
/// that the code word has for the lost node.
pub proof fn lemma_repaired_is_the_chunk(
    p: EncodeParams,
    size: nat,
    lost: nat,
    aloof: Set<usize>,
    base: Set<usize>,
    h: Seq<Option<Vec<u8>>>,
    u: Seq<Seq<u8>>,
    r: Seq<u8>,
    word: Seq<Seq<u8>>,
)
    requires
        p.wf(),
        lost < p.nodes(),
        repaired(p, size, lost, aloof, base, h, u, r),
        roles_ok(p, lost, aloof, base, h),
        is_clay_codeword(p, size, word),
        helpers_hold(p, size, lost, h, word),
    ensures
        r == word[lost as int],
{
    p.lemma_wf();
    lemma_repaired_uncoupled(p, size, lost, aloof, base, h, u, r, word, (p.t + 1) as nat);
    let q = p.q as nat;
    assert forall|l: int| 0 <= l < p.sub_chunk_no implies #[trigger] r.subrange(
        l * size,
        l * size + size,
    ) == word[lost as int].subrange(l * size, l * size + size) by {
        lemma_node_geometry(p, lost, l as nat);
        lemma_companion_geometry(p, lost, l as nat);
        if p.is_red(lost, l as nat) {
            lemma_score_bound(p, aloof, l as nat, p.t as nat);
            assert(lost_ok(p, size, lost, h, u, r, l));
            assert(cell(u, lost as int, l, size) == ucell(p, size, word, lost as int, l));
        } else {
            // the layer in which the lost node is red and its companion is
            // the node that is red here
            let z = p.companion_layer(lost, l as nat) as int;
            let s = p.companion_node(lost, l as nat);
            let x = s % q;
            lemma_node_geometry(p, s, z as nat);
            lemma_companion_geometry(p, s, z as nat);
            lemma_score_bound(p, aloof, z as nat, p.t as nat);
            assert(p.is_red(lost, z as nat));
            assert(sibling(p, lost, x) == s);
            assert(s != lost);
            assert(h[s as int] is Some);
            assert(lost_ok(p, size, lost, h, u, r, z));
            assert(p.companion_layer(s, z as nat) == l);
            assert(p.companion_node(s, z as nat) == lost);
            assert(row_cell(r, p.companion_layer(sibling(p, lost, x), z as nat) as int, size)
                == cstar_of_c_and_u(
                hcell(p, size, lost, h, sibling(p, lost, x) as int, z),
                cell(u, sibling(p, lost, x) as int, z, size),
            ));
            lemma_hcell(p, size, lost, h, word, s as int, z);
            assert(cell(u, s as int, z, size) == ucell(p, size, word, s as int, z));
            lemma_cell_len(p, size, word, s as int, z);
            lemma_cell_len(p, size, word, lost as int, l);
            lemma_partial_formulas(cell(word, s as int, z, size), cell(word, lost as int, l, size));
        }
    }
    lemma_rows_equal(r, word[lost as int], p.sub_chunk_no as nat, size);
}

/// Every known uncoupled value of a helper outside the lost node's
/// y-section is what the repair computes.
pub open spec fn helper_known(
    p: EncodeParams,
    size: nat,
    lost: nat,
    aloof: Set<usize>,
    base: Set<usize>,
    h: Seq<Option<Vec<u8>>>,
    u: Seq<Seq<u8>>,
    k: Seq<Seq<bool>>,
) -> bool {
    forall|n: int, z: int|
        0 <= n < p.nodes() && 0 <= z < p.sub_chunk_no && known(k, n, z) && p.is_red(lost, z as nat)
            && !base.contains(n as usize) ==> #[trigger] helper_uncoupled_ok(
            p,
            size,
            lost,
            aloof,
            h,
            u,
            n,
            z,
        )
}

/// Every known uncoupled value that was computed with the uncoupled value
/// of an aloof companion drew on a complete layer.
pub open spec fn repair_drew(
    p: EncodeParams,
    lost: nat,
    aloof: Set<usize>,
    base: Set<usize>,
    k: Seq<Seq<bool>>,
    s: nat,
    ic: nat,
) -> bool {
    forall|n: int, z: int|
        0 <= n < p.nodes() && 0 <= z < p.sub_chunk_no && #[trigger] known(k, n, z) && p.is_red(
            lost,
            z as nat,
        ) && !base.contains(n as usize) && aloof.contains(
            p.companion_node(n as nat, z as nat) as usize,
        ) ==> repair_complete(
            p,
            lost,
            aloof,
            s,
            ic,
            repair_index(p, lost, p.companion_layer(n as nat, z as nat)),
        )
}

/// Every complete layer of the repair is what phase B made it, and the
/// uncoupled values of all helpers in it are known.
pub open spec fn repair_settled(
    p: EncodeParams,
    size: nat,
    lost: nat,
    aloof: Set<usize>,
    base: Set<usize>,
    u: Seq<Seq<u8>>,
    k: Seq<Seq<bool>>,
    s: nat,
    ic: nat,
) -> bool {
    forall|i: int|
        0 <= i < p.sub_chunk_no / p.q && repair_complete(p, lost, aloof, s, ic, i as nat) ==> {
            &&& #[trigger] layer_determined(p, size, base, u, repair_layer(p, lost, i as nat) as int)
            &&& forall|n: int|
                0 <= n < p.nodes() && !base.contains(n as usize) ==> #[trigger] known(
                    k,
                    n,
                    repair_layer(p, lost, i as nat) as int,
                )
        }
}

/// The recovered chunk holds what every complete layer gives of it.
pub open spec fn lost_set(
    p: EncodeParams,
    size: nat,
    lost: nat,
    aloof: Set<usize>,
    h: Seq<Option<Vec<u8>>>,
    u: Seq<Seq<u8>>,
    r: Seq<u8>,
    s: nat,
    ic: nat,
) -> bool {
    forall|i: int|
        0 <= i < p.sub_chunk_no / p.q && repair_complete(p, lost, aloof, s, ic, i as nat)
            ==> #[trigger] lost_ok(p, size, lost, h, u, r, repair_layer(p, lost, i as nat) as int)
}

/// Whether no cell of a complete layer differs between two buffers.
pub open spec fn complete_same(
    p: EncodeParams,
    size: nat,
    lost: nat,
    aloof: Set<usize>,
    u: Seq<Seq<u8>>,
    u2: Seq<Seq<u8>>,
    s: nat,
    ic: nat,
) -> bool {
    forall|n: int, i: int|
        0 <= n < p.nodes() && 0 <= i < p.sub_chunk_no / p.q && repair_complete(
            p,
            lost,
            aloof,
            s,
            ic,
            i as nat,
        ) ==> #[trigger] cell(u2, n, repair_layer(p, lost, i as nat) as int, size) == cell(
            u,
            n,
            repair_layer(p, lost, i as nat) as int,
            size,
        )
}

/// One step of phase A of a repair keeps what is known in order. The step
/// works on a helper `(node, z)` outside the lost node's y-section. It
/// writes and marks that vertex and, if `pair` says so, its companion,
/// which is then a helper too.
pub proof fn lemma_repair_step(
    p: EncodeParams,
    size: nat,
    lost: nat,
    aloof: Set<usize>,
    base: Set<usize>,
    h: Seq<Option<Vec<u8>>>,
    u: Seq<Seq<u8>>,
    u2: Seq<Seq<u8>>,
    k: Seq<Seq<bool>>,
    k2: Seq<Seq<bool>>,
    s: nat,
    ic: nat,
    node: int,
    z: int,
    pair: bool,
)
    requires
        p.wf(),
        lost < p.nodes(),
        roles_ok(p, lost, aloof, base, h),
        0 <= node < p.nodes(),
        0 <= z < p.sub_chunk_no,
        p.is_red(lost, z as nat),
        !base.contains(node as usize),
        pair ==> !aloof.contains(p.companion_node(node as nat, z as nat) as usize),
        helper_known(p, size, lost, aloof, base, h, u, k),
        repair_drew(p, lost, aloof, base, k, s, ic),
        forall|n: int, l: int|
            0 <= n < p.nodes() && 0 <= l < p.sub_chunk_no && #[trigger] known(k2, n, l) && !known(
                k,
                n,
                l,
            ) ==> (n == node && l == z) || (pair && n == p.companion_node(node as nat, z as nat)
                && l == p.companion_layer(node as nat, z as nat)),
        forall|n: int, l: int|
            0 <= n < p.nodes() && 0 <= l < p.sub_chunk_no && !(n == node && l == z) && !(pair && n
                == p.companion_node(node as nat, z as nat) && l == p.companion_layer(
                node as nat,
                z as nat,
            )) ==> #[trigger] cell(u2, n, l, size) == cell(u, n, l, size),
        known(k2, node, z) ==> helper_uncoupled_ok(p, size, lost, aloof, h, u2, node, z),
        pair ==> helper_uncoupled_ok(
            p,
            size,
            lost,
            aloof,
            h,
            u2,
            p.companion_node(node as nat, z as nat) as int,
            p.companion_layer(node as nat, z as nat) as int,
        ),
        aloof.contains(p.companion_node(node as nat, z as nat) as usize) && known(k2, node, z)
            ==> repair_complete(
            p,
            lost,
            aloof,
            s,
            ic,
            repair_index(p, lost, p.companion_layer(node as nat, z as nat)),
        ),
    ensures
        helper_known(p, size, lost, aloof, base, h, u2, k2),
        repair_drew(p, lost, aloof, base, k2, s, ic),
{
    let ns = p.companion_node(node as nat, z as nat) as int;
    let zs = p.companion_layer(node as nat, z as nat) as int;
    p.lemma_wf();
    lemma_node_geometry(p, node as nat, z as nat);
    lemma_companion_geometry(p, node as nat, z as nat);
    assert(base.contains(node as usize) <==> node as nat / (p.q as nat) == lost / (p.q as nat)
        || aloof.contains(node as usize));
    assert(base.contains(ns as usize) <==> ns as nat / (p.q as nat) == lost / (p.q as nat)
        || aloof.contains(ns as usize));
    assert forall|n: int, l: int|
        0 <= n < p.nodes() && 0 <= l < p.sub_chunk_no && known(k2, n, l) && p.is_red(
            lost,
            l as nat,
        ) && !base.contains(n as usize) implies #[trigger] helper_uncoupled_ok(
        p,
        size,
        lost,
        aloof,
        h,
        u2,
        n,
        l,
    ) by {
        if n == node && l == z {
        } else if pair && n == ns && l == zs {
        } else {
            assert(known(k, n, l));
            assert(helper_uncoupled_ok(p, size, lost, aloof, h, u, n, l));
            lemma_node_geometry(p, n as nat, l as nat);
            lemma_companion_geometry(p, n as nat, l as nat);
            let n2 = p.companion_node(n as nat, l as nat) as int;
            let l2 = p.companion_layer(n as nat, l as nat) as int;
            assert(cell(u2, n, l, size) == cell(u, n, l, size));
            if aloof.contains(n2 as usize) {
                assert(base.contains(n2 as usize));
                assert(cell(u2, n2, l2, size) == cell(u, n2, l2, size));
            }
        }
    }
    assert forall|n: int, l: int|
        0 <= n < p.nodes() && 0 <= l < p.sub_chunk_no && #[trigger] known(k2, n, l) && p.is_red(
            lost,
            l as nat,
        ) && !base.contains(n as usize) && aloof.contains(
            p.companion_node(n as nat, l as nat) as usize,
        ) implies repair_complete(
        p,
        lost,
        aloof,
        s,
        ic,
        repair_index(p, lost, p.companion_layer(n as nat, l as nat)),
    ) by {
        if n == node && l == z {
        } else if pair && n == ns && l == zs {
            lemma_node_geometry(p, ns as nat, zs as nat);
        } else {
            assert(known(k, n, l));
        }
    }
}

/// Phase B of a repair keeps what is known of the helpers in order: it
/// writes sub-chunks of base nodes in the layer it works on, and no known
/// value has drawn on that layer yet.
pub proof fn lemma_repair_phase_b(
    p: EncodeParams,
    size: nat,
    lost: nat,
    aloof: Set<usize>,
    base: Set<usize>,
    h: Seq<Option<Vec<u8>>>,
    u: Seq<Seq<u8>>,
    u2: Seq<Seq<u8>>,
    k: Seq<Seq<bool>>,
    idx: nat,
)
    requires
        p.wf(),
        lost < p.nodes(),
        roles_ok(p, lost, aloof, base, h),
        idx < p.sub_chunk_no / p.q,
        helper_known(p, size, lost, aloof, base, h, u, k),
        repair_drew(
            p,
            lost,
            aloof,
            base,
            k,
            score(p, aloof, repair_layer(p, lost, idx)) + 1,
            idx,
        ),
        forall|n: int, l: int|
            0 <= n < p.nodes() && 0 <= l < p.sub_chunk_no && (l != repair_layer(p, lost, idx)
                || !base.contains(n as usize)) ==> #[trigger] cell(u2, n, l, size) == cell(
                u,
                n,
                l,
                size,
            ),
    ensures
        helper_known(p, size, lost, aloof, base, h, u2, k),
{
    lemma_repair_layers(p, lost);
    p.lemma_wf();
    let z = repair_layer(p, lost, idx);
    assert forall|n: int, l: int|
        0 <= n < p.nodes() && 0 <= l < p.sub_chunk_no && known(k, n, l) && p.is_red(
            lost,
            l as nat,
        ) && !base.contains(n as usize) implies #[trigger] helper_uncoupled_ok(
        p,
        size,
        lost,
        aloof,
        h,
        u2,
        n,
        l,
    ) by {
        assert(helper_uncoupled_ok(p, size, lost, aloof, h, u, n, l));
        lemma_node_geometry(p, n as nat, l as nat);
        lemma_companion_geometry(p, n as nat, l as nat);
        let n2 = p.companion_node(n as nat, l as nat) as int;
        let l2 = p.companion_layer(n as nat, l as nat) as int;
        assert(cell(u2, n, l, size) == cell(u, n, l, size));
        if aloof.contains(n2 as usize) {
            let i2 = repair_index(p, lost, l2 as nat);
            assert(repair_complete(p, lost, aloof, score(p, aloof, z) + 1, idx, i2));
            if l2 == z {
                assert(repair_index(p, lost, repair_layer(p, lost, idx)) == idx);
            }
            assert(cell(u2, n2, l2, size) == cell(u, n2, l2, size));
        }
    }
}

/// Marking values of base nodes as known changes nothing for the helpers.
pub proof fn lemma_repair_mark(
    p: EncodeParams,
    size: nat,
    lost: nat,
    aloof: Set<usize>,
    base: Set<usize>,
    h: Seq<Option<Vec<u8>>>,
    u: Seq<Seq<u8>>,
    k: Seq<Seq<bool>>,
    k2: Seq<Seq<bool>>,
    s: nat,
    ic: nat,
)
    requires
        helper_known(p, size, lost, aloof, base, h, u, k),
        repair_drew(p, lost, aloof, base, k, s, ic),
        forall|n: int, l: int|
            0 <= n < p.nodes() && 0 <= l < p.sub_chunk_no && #[trigger] known(k2, n, l)
                && !base.contains(n as usize) ==> known(k, n, l),
    ensures
        helper_known(p, size, lost, aloof, base, h, u, k2),
        repair_drew(p, lost, aloof, base, k2, s, ic),
{
    assert forall|n: int, l: int|
        0 <= n < p.nodes() && 0 <= l < p.sub_chunk_no && known(k2, n, l) && p.is_red(
            lost,
            l as nat,
        ) && !base.contains(n as usize) implies #[trigger] helper_uncoupled_ok(
        p,
        size,
        lost,
        aloof,
        h,
        u,
        n,
        l,
    ) by {
        assert(known(k, n, l));
    }
    assert forall|n: int, l: int|
        0 <= n < p.nodes() && 0 <= l < p.sub_chunk_no && #[trigger] known(k2, n, l) && p.is_red(
            lost,
            l as nat,
        ) && !base.contains(n as usize) && aloof.contains(
            p.companion_node(n as nat, l as nat) as usize,
        ) implies repair_complete(
        p,
        lost,
        aloof,
        s,
        ic,
        repair_index(p, lost, p.companion_layer(n as nat, l as nat)),
    ) by {
        assert(known(k, n, l));
    }
}

} // verus!
