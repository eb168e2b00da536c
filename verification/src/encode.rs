//! Code parameters and encoding.

use vstd::prelude::*;
use vstd::arithmetic::power::pow;
use vstd::arithmetic::div_mod::{lemma_fundamental_div_mod, lemma_mod_bound};
use std::collections::BTreeSet;
use crate::codeword::{
    agrees_outside,
    decoded,
    is_clay_codeword,
    lemma_decoded_is_codeword,
    lemma_decoded_is_the_codeword,
    parity_erased,
    shortened_are_zero,
};
use crate::decode::{
    buffer_ok,
    decode_layered,
    erased_count,
    lemma_erased_empty,
    lemma_erased_insert,
};
use crate::digits::{digit, with_digit, lemma_pow_step};
use crate::layout::{load, rows, zeroed};
use crate::maps::copy_bytes;

verus! {

/// The parameters of a code, as the encoder, the decoder and the repair
/// read them.
pub struct EncodeParams {
    /// Number of data chunks.
    pub k: usize,
    /// Number of parity chunks.
    pub m: usize,
    /// Number of chunks, `k + m`.
    pub n: usize,
    /// Coupling factor: nodes per y-section.
    pub q: usize,
    /// Number of y-sections.
    pub t: usize,
    /// Number of shortened nodes, which hold zeros and are never stored.
    pub nu: usize,
    /// Sub-chunks per chunk, `q^t`.
    pub sub_chunk_no: usize,
    /// Data shards of the scalar code, `k + nu`.
    pub original_count: usize,
    /// Parity shards of the scalar code, `m`.
    pub recovery_count: usize,
}

impl EncodeParams {
    /// The parameters are those of a code: the derived ones follow from
    /// `k`, `m` and a coupling factor between 2 and `m`.
    pub open spec fn wf(&self) -> bool {
        &&& self.k >= 1
        &&& self.m >= 1
        &&& 2 <= self.q <= self.m
        &&& self.n == self.k + self.m
        &&& self.nu == shortening(self.n as int, self.q as int)
        &&& self.t == (self.n + self.nu) / (self.q as int)
        &&& self.sub_chunk_no == pow(self.q as int, self.t as nat)
        &&& self.original_count == self.k + self.nu
        &&& self.recovery_count == self.m
    }

    /// Number of internal nodes, the shortened ones included.
    pub open spec fn nodes(&self) -> nat {
        (self.q * self.t) as nat
    }

    /// Whether an internal node is one of the shortened ones.
    pub open spec fn is_shortened(&self, node: int) -> bool {
        self.k <= node < self.k + self.nu
    }

    /// The internal index of the chunk with external index `e`.
    pub open spec fn to_internal(&self, e: int) -> int {
        if e < self.k {
            e
        } else {
            e + self.nu
        }
    }

    /// The entry for y-section `y` of the plane vector of layer `z`.
    pub open spec fn plane_digit(&self, z: nat, y: nat) -> nat {
        digit(z, self.q as nat, (self.t - 1 - y) as nat)
    }

    /// Whether the vertex of `node` in layer `z` is red, that is unpaired.
    pub open spec fn is_red(&self, node: nat, z: nat) -> bool {
        node % (self.q as nat) == self.plane_digit(z, node / (self.q as nat))
    }

    /// The node that holds the companion of the vertex of `node` in layer
    /// `z`: the red node of the same y-section.
    pub open spec fn companion_node(&self, node: nat, z: nat) -> nat {
        ((node / (self.q as nat)) * self.q + self.plane_digit(z, node / (self.q as nat))) as nat
    }

    /// The layer that holds the companion of the vertex of `node` in layer
    /// `z`: the digit of the y-section is replaced by the node's x.
    pub open spec fn companion_layer(&self, node: nat, z: nat) -> nat {
        with_digit(
            z,
            self.q as nat,
            (self.t - 1 - node / (self.q as nat)) as nat,
            node % (self.q as nat),
        ) as nat
    }

    /// What follows from well-formedness: the nodes fill `t` whole
    /// y-sections, and there are no more nodes than layers.
    pub proof fn lemma_wf(&self)
        requires
            self.wf(),
        ensures
            self.nu < self.q,
            self.q * self.t == self.n + self.nu,
            self.t >= 1,
            self.nodes() == self.k + self.nu + self.m,
            self.nodes() <= self.sub_chunk_no,
            self.sub_chunk_no >= 2,
            self.sub_chunk_no % self.q == 0,
            self.sub_chunk_no / self.q == pow(self.q as int, (self.t - 1) as nat),
    {
        let q = self.q as int;
        lemma_shortening(self.n as int, q);
        lemma_nodes_below_layers(self.q as nat, self.t as nat);
        lemma_pow_step(self.q as nat, (self.t - 1) as nat);
        let p = pow(q, (self.t - 1) as nat);
        assert(q * p >= 2) by (nonlinear_arith)
            requires
                q >= 2,
                p >= 1,
        ;
        vstd::arithmetic::div_mod::lemma_fundamental_div_mod_converse(q * p, q, p, 0);
    }
}

/// The shortening `nu` of `n` nodes under coupling factor `q`.
pub open spec fn shortening(n: int, q: int) -> int {
    (q - n % q) % q
}

/// The shortening is below `q` and fills the last y-section: with it the
/// number of nodes is a multiple of `q`.
pub proof fn lemma_shortening(n: int, q: int)
    requires
        n >= 2,
        q >= 2,
    ensures
        0 <= shortening(n, q) < q,
        shortening(n, q) == if n % q == 0 {
            0int
        } else {
            q - n % q
        },
        q * ((n + shortening(n, q)) / q) == n + shortening(n, q),
        (n + shortening(n, q)) / q >= 1,
{
    lemma_mod_bound(n, q);
    lemma_mod_bound(q - n % q, q);
    lemma_fundamental_div_mod(n, q);
    let nu = shortening(n, q);
    if n % q == 0 {
        assert(nu == 0) by {
            vstd::arithmetic::div_mod::lemma_mod_self_0(q);
        }
    } else {
        vstd::arithmetic::div_mod::lemma_small_mod((q - n % q) as nat, q as nat);
        assert(nu == q - n % q);
    }
    let w = n / q + if n % q == 0 {
        0int
    } else {
        1int
    };
    assert(n + nu == q * w) by (nonlinear_arith)
        requires
            n == q * (n / q) + n % q,
            nu == if n % q == 0 {
                0int
            } else {
                q - n % q
            },
            w == n / q + if n % q == 0 {
                0int
            } else {
                1int
            },
    ;
    assert(w * q == q * w) by (nonlinear_arith);
    vstd::arithmetic::div_mod::lemma_fundamental_div_mod_converse(n + nu, q, w, 0);
    assert(w >= 1) by (nonlinear_arith)
        requires
            n + nu == q * w,
            n >= 2,
            nu >= 0,
            q >= 2,
    ;
}

/// `q` nodes in each of `t` y-sections are no more than `q^t` layers.
pub proof fn lemma_nodes_below_layers(q: nat, t: nat)
    requires
        q >= 2,
        t >= 1,
    ensures
        q * t <= pow(q as int, t),
    decreases t,
{
    lemma_pow_step(q, (t - 1) as nat);
    let p = pow(q as int, (t - 1) as nat);
    if t == 1 {
        assert(q * 1 <= q * p) by (nonlinear_arith)
            requires
                p >= 1,
        ;
    } else {
        lemma_nodes_below_layers(q, (t - 1) as nat);
        assert(q * t <= q * p) by (nonlinear_arith)
            requires
                q * (t - 1) <= p,
                q >= 2,
                t >= 2,
                p >= 1,
        ;
    }
}

/// The smallest number of bytes that is encoded at once: two bytes in
/// every sub-chunk of every data chunk.
pub open spec fn min_bytes(p: EncodeParams) -> nat {
    (p.k * p.sub_chunk_no * 2) as nat
}

/// The number of whole units of [`min_bytes`] that `len` bytes of data
/// fill, at least one.
pub open spec fn units(p: EncodeParams, len: nat) -> nat {
    if len == 0 {
        1
    } else {
        ((len + min_bytes(p) - 1) / (min_bytes(p) as int)) as nat
    }
}

/// The length of the data after padding.
pub open spec fn padded_len(p: EncodeParams, len: nat) -> nat {
    units(p, len) * min_bytes(p)
}

/// The size of the sub-chunks of the chunks that `len` bytes of data are
/// encoded to.
pub open spec fn sub_chunk_size_for(p: EncodeParams, len: nat) -> nat {
    2 * units(p, len)
}

/// The size of the chunks that `len` bytes of data are encoded to.
pub open spec fn chunk_size_for(p: EncodeParams, len: nat) -> nat {
    (p.sub_chunk_no * sub_chunk_size_for(p, len)) as nat
}

/// The data followed by zeros up to `len` bytes.
pub open spec fn padded(data: Seq<u8>, len: nat) -> Seq<u8> {
    data + Seq::new((len - data.len()) as nat, |i: int| 0u8)
}

/// The padded length is a whole number of units, covers the data, and
/// splits evenly into `k` chunks.
pub proof fn lemma_padding(p: EncodeParams, len: nat)
    requires
        p.wf(),
    ensures
        min_bytes(p) > 0,
        units(p, len) >= 1,
        len <= padded_len(p, len) <= len + min_bytes(p),
        padded_len(p, len) == p.k * chunk_size_for(p, len),
        len == 0 ==> chunk_size_for(p, len) == p.sub_chunk_no * 2,
{
    p.lemma_wf();
    let min = min_bytes(p) as int;
    let alpha = p.sub_chunk_no as int;
    let k = p.k as int;
    assert(min == k * alpha * 2 && min >= 1) by (nonlinear_arith)
        requires
            min == k * alpha * 2,
            k >= 1,
            alpha >= 2,
    ;
    let u = units(p, len) as int;
    if len > 0 {
        vstd::arithmetic::div_mod::lemma_fundamental_div_mod(len + min - 1, min);
        vstd::arithmetic::div_mod::lemma_mod_bound(len + min - 1, min);
        assert(u * min == min * u) by (nonlinear_arith);
        assert(u == (len + min - 1) / min);
        assert(u >= 1) by (nonlinear_arith)
            requires
                len + min - 1 == min * u + (len + min - 1) % min,
                (len + min - 1) % min < min,
                len >= 1,
                min >= 1,
        ;
    } else {
        assert(u * min == min) by (nonlinear_arith)
            requires
                u == 1,
        ;
    }
    assert(u * min == k * (alpha * (2 * u))) by (nonlinear_arith)
        requires
            min == k * alpha * 2,
    ;
}

/// The chunks by internal node: the data chunks, a chunk of zeros for each
/// shortened node, and the parity chunks.
pub open spec fn internal_chunks(p: EncodeParams, chunks: Seq<Vec<u8>>, chunk_size: nat) -> Seq<
    Seq<u8>,
> {
    Seq::new(
        p.nodes(),
        |i: int|
            if i < p.k {
                chunks[i]@
            } else if i < p.k + p.nu {
                Seq::new(chunk_size, |j: int| 0u8)
            } else {
                chunks[i - p.nu]@
            },
    )
}

/// What `encode` makes of the data: `n` chunks of one size, of which the
/// first `k` hold the data followed by zeros. With zeros for the shortened
/// nodes they are a code word, and the only one with these data chunks.
pub open spec fn encode_post(p: EncodeParams, data: Seq<u8>, chunks: Seq<Vec<u8>>) -> bool {
    &&& is_clay_codeword(
        p,
        sub_chunk_size_for(p, data.len()),
        internal_chunks(p, chunks, chunk_size_for(p, data.len())),
    )
    &&& forall|word: Seq<Seq<u8>>|
        #[trigger] is_clay_codeword(p, sub_chunk_size_for(p, data.len()), word) && (forall|
            i: int,
        |
            0 <= i < p.k ==> word[i] == (#[trigger] chunks[i])@) ==> internal_chunks(
            p,
            chunks,
            chunk_size_for(p, data.len()),
        ) == word
    &&& chunks.len() == p.n
    &&& forall|i: int|
        0 <= i < p.n ==> (#[trigger] chunks[i])@.len() == chunk_size_for(p, data.len())
    &&& forall|i: int|
        0 <= i < p.k ==> (#[trigger] chunks[i])@ == padded(
            data,
            padded_len(p, data.len()),
        ).subrange(
            i * chunk_size_for(p, data.len()),
            i * chunk_size_for(p, data.len()) + chunk_size_for(p, data.len()),
        )
}

/// Whether `len` bytes of data can be encoded: the scalar code has no more
/// than 256 shards, and the padded data fits the machine integer.
pub open spec fn encodable(p: EncodeParams, len: nat) -> bool {
    &&& p.original_count + p.recovery_count <= 256
    &&& len + min_bytes(p) <= usize::MAX
}

/// Encodes data into `n` chunks: `k` data chunks, which hold the data
/// followed by zeros, and `m` parity chunks.
pub fn encode(params: &EncodeParams, data: &[u8]) -> (chunks: Vec<Vec<u8>>)
    requires
        params.wf(),
        encodable(*params, data@.len()),
    ensures
        encode_post(*params, data@, chunks@),
{
    let ghost p = *params;
    let ghost len = data@.len();
    proof {
        params.lemma_wf();
        lemma_padding(p, len);
        assert(p.k * p.sub_chunk_no >= 0) by (nonlinear_arith)
            requires
                p.k >= 0,
                p.sub_chunk_no >= 0,
        ;
    }
    let min_sub_chunk_size: usize = 2;
    let min_size = params.k * params.sub_chunk_no * min_sub_chunk_size;
    assert(min_size == min_bytes(p));
    let padded_len = if data.len() == 0 {
        min_size
    } else {
        assert(units(p, len) == (data.len() + min_size - 1) / (min_size as int));
        let aligned = ((data.len() + min_size - 1) / min_size) * min_size;
        assert(aligned == units(p, len) * min_bytes(p));
        if aligned > min_size {
            aligned
        } else {
            min_size
        }
    };
    proof {
        if len > 0 {
            if units(p, len) == 1 {
                assert(units(p, len) * min_bytes(p) == min_bytes(p)) by (nonlinear_arith)
                    requires
                        units(p, len) == 1,
                ;
            } else {
                assert(units(p, len) * min_bytes(p) > min_bytes(p)) by (nonlinear_arith)
                    requires
                        units(p, len) >= 2,
                        min_bytes(p) > 0,
                ;
            }
        }
        if len == 0 {
            assert(units(p, len) * min_bytes(p) == min_bytes(p)) by (nonlinear_arith)
                requires
                    units(p, len) == 1,
            ;
        }
        assert(padded_len == self::padded_len(p, len));
    }
    let chunk_size = padded_len / params.k;
    let sub_chunk_size = chunk_size / params.sub_chunk_no;
    let ghost cs = chunk_size_for(p, len);
    let ghost size = sub_chunk_size_for(p, len);
    proof {
        assert(p.k * cs == cs * p.k) by (nonlinear_arith);
        vstd::arithmetic::div_mod::lemma_div_multiples_vanish(cs as int, p.k as int);
        assert(chunk_size == cs);
        assert(p.sub_chunk_no * size == size * p.sub_chunk_no) by (nonlinear_arith);
        vstd::arithmetic::div_mod::lemma_div_multiples_vanish(size as int, p.sub_chunk_no as int);
        assert(sub_chunk_size == size);
    }
    let mut padded_data: Vec<u8> = Vec::new();
    let mut i: usize = 0;
    while i < data.len()
        invariant
            i <= data@.len(),
            padded_data@.len() == i,
            forall|j: int| 0 <= j < i ==> padded_data@[j] == data@[j],
        decreases data@.len() - i,
    {
        padded_data.push(data[i]);
        i += 1;
    }
    while i < padded_len
        invariant
            data@.len() <= i <= padded_len,
            padded_data@.len() == i,
            forall|j: int| 0 <= j < data@.len() ==> padded_data@[j] == data@[j],
            forall|j: int| data@.len() <= j < i ==> padded_data@[j] == 0u8,
        decreases padded_len - i,
    {
        padded_data.push(0u8);
        i += 1;
    }
    assert(padded_data@ =~= padded(data@, padded_len as nat));
    let total_nodes = params.q * params.t;
    let mut chunks = zeroed(total_nodes, chunk_size);
    let mut i: usize = 0;
    while i < params.k
        invariant
            i <= p.k,
            p == *params,
            p.wf(),
            p.nodes() == p.k + p.nu + p.m,
            total_nodes == p.nodes(),
            chunk_size == cs,
            cs == p.sub_chunk_no * size,
            padded_data@.len() == p.k * cs,
            buffer_ok(p, size, &chunks),
            forall|j: int|
                0 <= j < i ==> (#[trigger] chunks@[j])@ == padded_data@.subrange(
                    j * cs,
                    j * cs + cs,
                ),
            forall|j: int|
                p.k <= j < p.nodes() ==> (#[trigger] chunks@[j])@ == Seq::new(cs, |a: int| 0u8),
        decreases p.k - i,
    {
        proof {
            crate::layout::lemma_cell_bounds(i as nat, p.k as nat, cs);
            assert(p.k * cs == cs * p.k) by (nonlinear_arith);
        }
        let row = load(&padded_data, i, chunk_size);
        chunks[i] = row;
        i += 1;
    }
    let parity_start = params.k + params.nu;
    let mut nodes_to_compute: BTreeSet<usize> = BTreeSet::new();
    let mut i: usize = parity_start;
    proof {
        lemma_erased_empty(p.nodes());
    }
    while i < total_nodes
        invariant
            parity_start <= i <= total_nodes,
            total_nodes == p.nodes(),
            p.nodes() <= usize::MAX,
            parity_start == p.k + p.nu,
            erased_count(p, nodes_to_compute@) == i - parity_start,
            forall|node: usize|
                nodes_to_compute@.contains(node) <==> parity_start <= node < i,
        decreases total_nodes - i,
    {
        proof {
            lemma_erased_insert(nodes_to_compute@, i, p.nodes());
        }
        nodes_to_compute.insert(i);
        i += 1;
    }
    let ghost loaded = chunks@;
    let ghost c_in = rows(&chunks);
    let ghost e = nodes_to_compute@;
    match decode_layered(params, &nodes_to_compute, &mut chunks, sub_chunk_size) {
        Ok(()) => {},
        Err(_) => {
            assert(false);
        },
    }
    let ghost c_out = rows(&chunks);
    proof {
        let u = choose|u: Seq<Seq<u8>>| decoded(p, size, e, c_in, c_out, u);
        assert(parity_erased(p, e));
        assert(shortened_are_zero(p, size, c_in)) by {
            assert forall|node: int| 0 <= node < p.nodes() && p.is_shortened(node) implies
                #[trigger] c_in[node]
                == Seq::new((p.sub_chunk_no * size) as nat, |j: int| 0u8) by {
                assert(loaded[node]@ == Seq::new(cs, |a: int| 0u8));
            }
        }
        lemma_decoded_is_codeword(p, size, e, c_in, c_out, u);
        assert forall|word: Seq<Seq<u8>>|
            #[trigger] is_clay_codeword(p, size, word) && (forall|i: int|
                0 <= i < p.k ==> word[i] == #[trigger] c_out[i]) implies c_out == word by {
            assert forall|n: int| 0 <= n < p.nodes() && !e.contains(n as usize) implies #[trigger] c_in[n]
                == word[n] by {
                if n < p.k {
                    assert(chunks@[n] == loaded[n]);
                    assert(word[n] == c_out[n]);
                } else {
                    assert(p.is_shortened(n));
                    assert(loaded[n]@ == Seq::new(cs, |a: int| 0u8));
                }
            }
            assert(agrees_outside(p, e, c_in, word));
            lemma_decoded_is_the_codeword(p, size, e, c_in, c_out, u, word);
        }
    }
    let mut result: Vec<Vec<u8>> = Vec::new();
    let mut i: usize = 0;
    while i < params.k
        invariant
            i <= p.k,
            p == *params,
            p.wf(),
            p.nodes() == p.k + p.nu + p.m,
            buffer_ok(p, size, &chunks),
            cs == p.sub_chunk_no * size,
            result@.len() == i,
            forall|j: int| 0 <= j < i ==> (#[trigger] result@[j])@ == chunks@[j]@,
        decreases p.k - i,
    {
        let row = copy_bytes(&chunks[i]);
        result.push(row);
        i += 1;
    }
    let mut i: usize = parity_start;
    while i < total_nodes
        invariant
            parity_start <= i <= total_nodes,
            total_nodes == p.nodes(),
            parity_start == p.k + p.nu,
            p == *params,
            p.wf(),
            p.nodes() == p.k + p.nu + p.m,
            buffer_ok(p, size, &chunks),
            cs == p.sub_chunk_no * size,
            result@.len() == p.k + (i - parity_start),
            forall|j: int| 0 <= j < p.k ==> (#[trigger] result@[j])@ == chunks@[j]@,
            forall|j: int|
                p.k <= j < p.k + (i - parity_start) ==> (#[trigger] result@[j])@ == chunks@[j
                    + p.nu]@,
        decreases total_nodes - i,
    {
        let row = copy_bytes(&chunks[i]);
        result.push(row);
        i += 1;
    }
    proof {
        assert forall|j: int| 0 <= j < p.k implies (#[trigger] result@[j])@ == padded(
            data@,
            self::padded_len(p, len),
        ).subrange(j * cs, j * cs + cs) by {
            assert(!nodes_to_compute@.contains(j as usize));
            assert(chunks@[j] == loaded[j]);
        }
        assert forall|j: int| 0 <= j < p.n implies (#[trigger] result@[j])@.len() == cs by {
            if j < p.k {
                assert(chunks@[j]@.len() == cs);
            } else {
                assert(chunks@[j + p.nu]@.len() == cs);
            }
        }
        let inner = internal_chunks(p, result@, cs);
        assert forall|n: int| 0 <= n < p.nodes() implies inner[n] == c_out[n] by {
            if n < p.k {
                assert(result@[n]@ == chunks@[n]@);
            } else if n < p.k + p.nu {
                assert(!e.contains(n as usize));
                assert(chunks@[n] == loaded[n]);
                assert(loaded[n]@ == Seq::new(cs, |a: int| 0u8));
            } else {
                assert(result@[n - p.nu]@ == chunks@[n - p.nu + p.nu]@);
            }
        }
        assert(inner =~= c_out);
        assert forall|word: Seq<Seq<u8>>|
            #[trigger] is_clay_codeword(p, size, word) && (forall|i: int|
                0 <= i < p.k ==> word[i] == (#[trigger] result@[i])@) implies inner == word by {
            assert forall|i: int| 0 <= i < p.k implies word[i] == #[trigger] c_out[i] by {
                assert(word[i] == result@[i]@);
            }
        }
    }
    result
}

} // verus!
