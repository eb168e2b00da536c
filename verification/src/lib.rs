//! Clay (coupled-layer) erasure codes.
//!
//! A Clay code stores `k` data chunks and `m` parity chunks like a
//! Reed-Solomon code, and repairs one lost chunk from a fraction of each of
//! `d` helper chunks.

use vstd::prelude::*;
use vstd::arithmetic::power::pow;

pub mod codec;
pub mod codeword;
pub mod coords;
pub mod decode;
pub mod digits;
pub mod encode;
pub mod error;
pub mod gf;
pub mod laws;
pub mod layout;
pub mod maps;
pub mod planes;
pub mod power;
pub mod recovery;
pub mod repair;
pub mod tracking;
pub mod transforms;

pub use error::ClayError;
pub use power::checked_pow;

use std::collections::HashMap;
use crate::decode::decode_post;
use crate::encode::{
    encodable,
    encode_post,
    lemma_nodes_below_layers,
    lemma_shortening,
    shortening,
    EncodeParams,
};
use crate::repair::{plan_post, repair_post};

verus! {

/// The most data shards, and the most parity shards, that a code may have.
pub const MAX_RS_SHARDS: usize = 32768;

/// A Clay code with its derived parameters.
#[derive(Clone, Debug)]
pub struct ClayCode {
    /// Number of data chunks.
    pub k: usize,
    /// Number of parity chunks.
    pub m: usize,
    /// Number of chunks, `k + m`.
    pub n: usize,
    /// Number of helper nodes that a repair reads from.
    pub d: usize,
    /// Coupling factor, `d - k + 1`.
    pub q: usize,
    /// Number of y-sections, `(n + nu) / q`.
    pub t: usize,
    /// Shortening: the number of virtual zero nodes that make `n + nu` a
    /// multiple of `q`.
    pub nu: usize,
    /// Sub-packetization: sub-chunks per chunk, `q^t`.
    pub sub_chunk_no: usize,
    /// Sub-chunks that each helper hands over in a repair, `q^t / q`.
    pub beta: usize,
}

/// Whether `(k, m, d)` are the parameters of a code.
pub open spec fn valid_parameters(k: int, m: int, d: int) -> bool {
    k >= 1 && m >= 1 && k + 1 <= d <= k + m - 1
}

/// The number of y-sections of the code `(k, m, d)`.
pub open spec fn sections(k: int, m: int, d: int) -> int {
    (k + m + shortening(k + m, d - k + 1)) / (d - k + 1)
}

/// The sub-packetization of the code `(k, m, d)`.
pub open spec fn sub_packetization(k: int, m: int, d: int) -> int {
    pow(d - k + 1, sections(k, m, d) as nat)
}

impl ClayCode {
    /// The parameters as the encoder, the decoder and the repair read them.
    pub open spec fn params(&self) -> EncodeParams {
        EncodeParams {
            k: self.k,
            m: self.m,
            n: self.n,
            q: self.q,
            t: self.t,
            nu: self.nu,
            sub_chunk_no: self.sub_chunk_no,
            original_count: (self.k + self.nu) as usize,
            recovery_count: self.m,
        }
    }

    /// The fields are those of a code, each derived one as its definition
    /// says.
    pub open spec fn wf(&self) -> bool {
        &&& self.params().wf()
        &&& self.d == self.k + self.q - 1
        &&& self.beta == self.sub_chunk_no / self.q
        &&& self.k + self.nu <= MAX_RS_SHARDS
        &&& self.m <= MAX_RS_SHARDS
    }

    /// The code with `k` data chunks, `m` parity chunks and `d` helpers per
    /// repair.
    pub fn new(k: usize, m: usize, d: usize) -> (r: Result<Self, ClayError>)
        ensures
            !valid_parameters(k as int, m as int, d as int) ==> r matches Err(
                ClayError::InvalidParameters(_),
            ),
            valid_parameters(k as int, m as int, d as int) && sub_packetization(
                k as int,
                m as int,
                d as int,
            ) > usize::MAX ==> r matches Err(ClayError::Overflow(_)),
            valid_parameters(k as int, m as int, d as int) && sub_packetization(
                k as int,
                m as int,
                d as int,
            ) <= usize::MAX && (k + shortening(k + m, d - k + 1) > MAX_RS_SHARDS || m
                > MAX_RS_SHARDS) ==> r matches Err(ClayError::InvalidParameters(_)),
            valid_parameters(k as int, m as int, d as int) && sub_packetization(
                k as int,
                m as int,
                d as int,
            ) <= usize::MAX && k + shortening(k + m, d - k + 1) <= MAX_RS_SHARDS && m
                <= MAX_RS_SHARDS ==> r is Ok,
            r matches Ok(code) ==> code.wf() && code.k == k && code.m == m && code.d == d,
    {
        if k < 1 {
            return Err(ClayError::InvalidParameters("k must be at least 1".to_owned()));
        }
        if m < 1 {
            return Err(ClayError::InvalidParameters("m must be at least 1".to_owned()));
        }
        if d <= k || d - k >= m {
            return Err(
                ClayError::InvalidParameters("d must be in range [k + 1, k + m - 1]".to_owned()),
            );
        }
        let q = d - k + 1;
        proof {
            lemma_shortening(k + m, q as int);
            lemma_nodes_below_layers(q as nat, sections(k as int, m as int, d as int) as nat);
        }
        let n = match k.checked_add(m) {
            Some(n) => n,
            None => {
                return Err(ClayError::Overflow("q^t overflows".to_owned()));
            },
        };
        let nu = if n % q == 0 {
            0
        } else {
            q - (n % q)
        };
        let total = match n.checked_add(nu) {
            Some(total) => total,
            None => {
                return Err(ClayError::Overflow("q^t overflows".to_owned()));
            },
        };
        let t = total / q;
        let sub_chunk_no = match checked_pow(q, t) {
            Some(alpha) => alpha,
            None => {
                return Err(ClayError::Overflow("q^t overflows".to_owned()));
            },
        };
        let beta = sub_chunk_no / q;
        let original_count = k + nu;
        let recovery_count = m;
        if original_count > MAX_RS_SHARDS || recovery_count > MAX_RS_SHARDS {
            return Err(
                ClayError::InvalidParameters("Total nodes exceeds the limit of 32768".to_owned()),
            );
        }
        Ok(ClayCode { k, m, n, d, q, t, nu, sub_chunk_no, beta })
    }

    /// The code with the most helpers per repair, `d = k + m - 1`.
    pub fn new_default(k: usize, m: usize) -> (r: Result<Self, ClayError>)
        ensures
            !valid_parameters(k as int, m as int, k + m - 1) ==> r matches Err(
                ClayError::InvalidParameters(_),
            ),
            valid_parameters(k as int, m as int, k + m - 1) && sub_packetization(
                k as int,
                m as int,
                k + m - 1,
            ) > usize::MAX ==> r matches Err(ClayError::Overflow(_)),
            valid_parameters(k as int, m as int, k + m - 1) && sub_packetization(
                k as int,
                m as int,
                k + m - 1,
            ) <= usize::MAX && (k + shortening(k + m, m as int) > MAX_RS_SHARDS || m
                > MAX_RS_SHARDS) ==> r matches Err(ClayError::InvalidParameters(_)),
            valid_parameters(k as int, m as int, k + m - 1) && sub_packetization(
                k as int,
                m as int,
                k + m - 1,
            ) <= usize::MAX && k + shortening(k + m, m as int) <= MAX_RS_SHARDS && m
                <= MAX_RS_SHARDS ==> r is Ok,
            r matches Ok(code) ==> code.wf() && code.k == k && code.m == m && code.d == k + m - 1,
    {
        if k < 1 || m < 2 {
            return Self::new(k, m, 0);
        }
        match k.checked_add(m) {
            Some(n) => Self::new(k, m, n - 1),
            None => {
                proof {
                    lemma_shortening(k + m, m as int);
                    lemma_nodes_below_layers(m as nat, sections(k as int, m as int, k + m - 1) as nat);
                }
                Err(ClayError::Overflow("q^t overflows".to_owned()))
            },
        }
    }

    /// The parameters as the encoder, the decoder and the repair read them.
    pub fn encode_params(&self) -> (p: EncodeParams)
        requires
            self.wf(),
        ensures
            p == self.params(),
            p.wf(),
    {
        proof {
            self.params().lemma_wf();
        }
        EncodeParams {
            k: self.k,
            m: self.m,
            n: self.n,
            q: self.q,
            t: self.t,
            nu: self.nu,
            sub_chunk_no: self.sub_chunk_no,
            original_count: self.k + self.nu,
            recovery_count: self.m,
        }
    }

    /// Encodes data into `n` chunks of `sub_chunk_no` sub-chunks each: the
    /// `k` data chunks, which hold the data followed by zeros, and the `m`
    /// parity chunks.
    pub fn encode(&self, data: &[u8]) -> (chunks: Vec<Vec<u8>>)
        requires
            self.wf(),
            encodable(self.params(), data@.len()),
        ensures
            encode_post(self.params(), data@, chunks@),
    {
        let params = self.encode_params();
        crate::encode::encode(&params, data)
    }

    /// Recovers the data from the chunks that are available. `available`
    /// holds them by index, `erasures` lists the indices of the others.
    pub fn decode(&self, available: &HashMap<usize, Vec<u8>>, erasures: &[usize]) -> (r: Result<
        Vec<u8>,
        ClayError,
    >)
        requires
            self.wf(),
        ensures
            decode_post(self.params(), available@, erasures@, r),
    {
        let params = self.encode_params();
        crate::decode::decode(&params, available, erasures)
    }

    /// The plan of a repair of `lost_node`: `d` helper nodes, each with the
    /// `beta` sub-chunks that it is to hand over, in their order.
    pub fn minimum_to_repair(&self, lost_node: usize, available: &[usize]) -> (r: Result<
        Vec<(usize, Vec<usize>)>,
        ClayError,
    >)
        requires
            self.wf(),
        ensures
            plan_post(self.params(), lost_node, available@, r),
    {
        let params = self.encode_params();
        crate::repair::minimum_to_repair(&params, lost_node, available)
    }

    /// Recovers the chunk of `lost_node` from the sub-chunks that the
    /// helpers have handed over as the plan says.
    pub fn repair(
        &self,
        lost_node: usize,
        helper_data: &HashMap<usize, Vec<u8>>,
        chunk_size: usize,
    ) -> (r: Result<Vec<u8>, ClayError>)
        requires
            self.wf(),
        ensures
            repair_post(self.params(), lost_node, helper_data@, chunk_size, r),
    {
        let params = self.encode_params();
        crate::repair::repair(&params, lost_node, helper_data, chunk_size)
    }

    /// The repair bandwidth as a fraction of the bandwidth of a full
    /// decode: numerator `d` and denominator `k * q`.
    pub fn repair_bandwidth_ratio(&self) -> (r: (usize, usize))
        requires
            self.wf(),
        ensures
            r.0 == self.d,
            r.1 == self.k * self.q,
            r.1 > 0,
    {
        proof {
            self.params().lemma_wf();
            assert(0 < self.k * self.q <= 32768 * 32768) by (nonlinear_arith)
                requires
                    1 <= self.k <= 32768,
                    2 <= self.q <= 32768,
            ;
        }
        (self.d, self.k * self.q)
    }
}

} // verus!
