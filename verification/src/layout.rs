//! How chunks are laid out in memory.
//!
//! A chunk is a row of `alpha` sub-chunks of `size` bytes each; a buffer
//! holds one such row per node. The sub-chunk of node `node` in layer `z`
//! is the cell `(node, z)` of the buffer.

use vstd::prelude::*;

verus! {

/// The rows of a buffer as sequences of bytes.
pub open spec fn rows(buf: &Vec<Vec<u8>>) -> Seq<Seq<u8>> {
    Seq::new(buf@.len(), |i: int| buf@[i]@)
}

/// A buffer of `nodes` rows of `alpha` sub-chunks of `size` bytes.
pub open spec fn has_shape(b: Seq<Seq<u8>>, nodes: nat, alpha: nat, size: nat) -> bool {
    &&& b.len() == nodes
    &&& forall|i: int| 0 <= i < nodes ==> (#[trigger] b[i]).len() == alpha * size
}

/// The sub-chunk of node `node` in layer `z`.
pub open spec fn cell(b: Seq<Seq<u8>>, node: int, z: int, size: nat) -> Seq<u8> {
    b[node].subrange(z * size, z * size + size)
}

/// Whether layer `l` of sub-chunks of `size` bytes lies within a row of
/// `len` bytes.
pub open spec fn in_row(l: int, size: nat, len: nat) -> bool {
    0 <= l && l * size + size <= len
}

/// Layer `z` of a row ends within the row.
pub proof fn lemma_cell_bounds(z: nat, alpha: nat, size: nat)
    requires
        z < alpha,
    ensures
        0 <= z * size,
        z * size + size <= alpha * size,
        z * size + size == (z + 1) * size,
{
    assert(z * size + size == (z + 1) * size) by (nonlinear_arith);
    assert((z + 1) * size <= alpha * size) by (nonlinear_arith)
        requires
            z + 1 <= alpha,
    ;
    assert(0 <= z * size) by (nonlinear_arith);
}

/// Two different layers of a row do not overlap.
pub proof fn lemma_cells_disjoint(z1: nat, z2: nat, size: nat)
    requires
        z1 < z2,
    ensures
        z1 * size + size <= z2 * size,
{
    assert((z1 + 1) * size <= z2 * size) by (nonlinear_arith)
        requires
            z1 + 1 <= z2,
    ;
    assert(z1 * size + size == (z1 + 1) * size) by (nonlinear_arith);
}

/// A buffer of `nodes` rows of `len` zero bytes.
pub fn zeroed(nodes: usize, len: usize) -> (buf: Vec<Vec<u8>>)
    ensures
        buf@.len() == nodes,
        forall|i: int| 0 <= i < nodes ==> (#[trigger] buf@[i])@ == Seq::new(len as nat, |j: int| 0u8),
{
    let mut buf: Vec<Vec<u8>> = Vec::new();
    let mut i: usize = 0;
    while i < nodes
        invariant
            i <= nodes,
            buf@.len() == i,
            forall|a: int| 0 <= a < i ==> (#[trigger] buf@[a])@ == Seq::new(len as nat, |j: int| 0u8),
        decreases nodes - i,
    {
        let row = zero_row(len);
        buf.push(row);
        i += 1;
    }
    buf
}

/// A row of `len` zero bytes.
pub fn zero_row(len: usize) -> (row: Vec<u8>)
    ensures
        row@ == Seq::new(len as nat, |j: int| 0u8),
{
    let mut row: Vec<u8> = Vec::new();
    let mut j: usize = 0;
    while j < len
        invariant
            j <= len,
            row@.len() == j,
            forall|a: int| 0 <= a < j ==> row@[a] == 0u8,
        decreases len - j,
    {
        row.push(0u8);
        j += 1;
    }
    assert(row@ =~= Seq::new(len as nat, |j: int| 0u8));
    row
}

/// Copies the sub-chunk of layer `z` out of a row.
pub fn load(row: &Vec<u8>, z: usize, size: usize) -> (out: Vec<u8>)
    requires
        z * size + size <= row@.len(),
    ensures
        out@ == row@.subrange(z * size, z * size + size),
{
    let total = row.len();
    assert(0 <= z * size <= total) by (nonlinear_arith)
        requires
            z * size + size <= total,
    ;
    let start = z * size;
    let mut out: Vec<u8> = Vec::new();
    let mut j: usize = 0;
    while j < size
        invariant
            j <= size,
            start == z * size,
            start + size <= total,
            total == row@.len(),
            out@.len() == j,
            forall|a: int| 0 <= a < j ==> out@[a] == row@[start + a],
        decreases size - j,
    {
        out.push(row[start + j]);
        j += 1;
    }
    assert(out@ =~= row@.subrange(z * size, z * size + size));
    out
}

/// Overwrites the cell `(node, z)` of a buffer and leaves every other cell
/// as it was.
pub fn store(buf: &mut Vec<Vec<u8>>, node: usize, z: usize, size: usize, data: &Vec<u8>)
    requires
        node < old(buf)@.len(),
        data@.len() == size,
        z * size + size <= old(buf)@[node as int]@.len(),
    ensures
        final(buf)@.len() == old(buf)@.len(),
        forall|i: int|
            0 <= i < old(buf)@.len() ==> (#[trigger] final(buf)@[i])@.len() == old(buf)@[i]@.len(),
        forall|i: int| 0 <= i < old(buf)@.len() && i != node ==> final(buf)@[i] == old(buf)@[i],
        cell(rows(final(buf)), node as int, z as int, size as nat) == data@,
        forall|j: int|
            0 <= j < old(buf)@[node as int]@.len() && !(z * size <= j < z * size + size)
                ==> final(buf)@[node as int]@[j] == old(buf)@[node as int]@[j],
        forall|n: int, l: int|
            0 <= n < old(buf)@.len() && in_row(l, size as nat, old(buf)@[n]@.len()) && (n != node
                || l != z) ==> #[trigger] cell(rows(final(buf)), n, l, size as nat) == cell(
                rows(old(buf)),
                n,
                l,
                size as nat,
            ),
{
    let total = buf[node].len();
    assert(0 <= z * size <= total) by (nonlinear_arith)
        requires
            z * size + size <= total,
    ;
    let start = z * size;
    let mut j: usize = 0;
    while j < size
        invariant
            j <= size,
            start == z * size,
            node < buf@.len(),
            data@.len() == size,
            buf@.len() == old(buf)@.len(),
            start + size <= total,
            total == buf@[node as int]@.len(),
            forall|i: int|
                0 <= i < old(buf)@.len() ==> (#[trigger] buf@[i])@.len() == old(buf)@[i]@.len(),
            forall|i: int| 0 <= i < old(buf)@.len() && i != node ==> buf@[i] == old(buf)@[i],
            forall|a: int| 0 <= a < j ==> buf@[node as int]@[start + a] == data@[a],
            forall|a: int|
                0 <= a < buf@[node as int]@.len() && !(start <= a < start + j)
                    ==> buf@[node as int]@[a] == old(buf)@[node as int]@[a],
        decreases size - j,
    {
        buf[node][start + j] = data[j];
        j += 1;
    }
    assert(cell(rows(buf), node as int, z as int, size as nat) =~= data@);
    assert forall|n: int, l: int|
        0 <= n < old(buf)@.len() && in_row(l, size as nat, old(buf)@[n]@.len()) && (n != node || l
            != z) implies #[trigger] cell(rows(buf), n, l, size as nat) == cell(
        rows(old(buf)),
        n,
        l,
        size as nat,
    ) by {
        if n == node {
            if l < z {
                lemma_cells_disjoint(l as nat, z as nat, size as nat);
            } else {
                lemma_cells_disjoint(z as nat, l as nat, size as nat);
            }
            assert(0 <= l * size) by (nonlinear_arith)
                requires
                    0 <= l,
                    0 <= size,
            ;
        }
        assert(cell(rows(buf), n, l, size as nat) =~= cell(rows(old(buf)), n, l, size as nat));
    }
}

/// The sub-chunk at place `z` of a row.
pub open spec fn row_cell(row: Seq<u8>, z: int, size: nat) -> Seq<u8> {
    row.subrange(z * size, z * size + size)
}

/// Overwrites the sub-chunk at place `z` of a row and leaves every other
/// sub-chunk as it was.
pub fn store_row(row: &mut Vec<u8>, z: usize, size: usize, data: &Vec<u8>)
    requires
        data@.len() == size,
        z * size + size <= old(row)@.len(),
    ensures
        final(row)@.len() == old(row)@.len(),
        row_cell(final(row)@, z as int, size as nat) == data@,
        forall|l: int|
            in_row(l, size as nat, old(row)@.len()) && l != z ==> #[trigger] row_cell(
                final(row)@,
                l,
                size as nat,
            ) == row_cell(old(row)@, l, size as nat),
{
    let total = row.len();
    assert(0 <= z * size <= total) by (nonlinear_arith)
        requires
            z * size + size <= total,
    ;
    let start = z * size;
    let mut j: usize = 0;
    while j < size
        invariant
            j <= size,
            start == z * size,
            data@.len() == size,
            start + size <= total,
            total == row@.len(),
            total == old(row)@.len(),
            forall|a: int| 0 <= a < j ==> row@[start + a] == data@[a],
            forall|a: int|
                0 <= a < total && !(start <= a < start + j) ==> row@[a] == old(row)@[a],
        decreases size - j,
    {
        row[start + j] = data[j];
        j += 1;
    }
    assert(row_cell(row@, z as int, size as nat) =~= data@);
    assert forall|l: int|
        in_row(l, size as nat, old(row)@.len()) && l != z implies #[trigger] row_cell(
        row@,
        l,
        size as nat,
    ) == row_cell(old(row)@, l, size as nat) by {
        if l < z {
            lemma_cells_disjoint(l as nat, z as nat, size as nat);
        } else {
            lemma_cells_disjoint(z as nat, l as nat, size as nat);
        }
        assert(0 <= l * size) by (nonlinear_arith)
            requires
                0 <= l,
                0 <= size,
        ;
        assert(row_cell(row@, l, size as nat) =~= row_cell(old(row)@, l, size as nat));
    }
}

} // verus!
