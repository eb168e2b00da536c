//! The scalar MDS code: Reed-Solomon over GF(2^8), from the
//! `reed_solomon_erasure` crate.
//!
//! Nothing in this module is proved. The contracts say what the crate's
//! source shows of the calls that the library makes.

use vstd::prelude::*;
use crate::layout::rows;

verus! {

/// The error type of the `reed_solomon_erasure` crate. The library hands
/// it on to [`codec_error_text`] and reads nothing of it.
#[verifier::external_type_specification]
#[verifier::external_body]
pub struct ExCodecError(reed_solomon_erasure::Error);

/// A Reed-Solomon encoder and decoder of the `reed_solomon_erasure` crate
/// (`galois_8::ReedSolomon`), made for fixed numbers of data and parity
/// shards.
#[verifier::external_body]
pub struct Codec {
    inner: reed_solomon_erasure::galois_8::ReedSolomon,
}

/// The number of data shards that a codec was made for.
pub uninterp spec fn codec_data_shards(codec: Codec) -> nat;

/// The number of parity shards that a codec was made for.
pub uninterp spec fn codec_parity_shards(codec: Codec) -> nat;

/// The parity shards that the codec computes from the given data shards.
pub uninterp spec fn rs_parity(data: Seq<Seq<u8>>, parity_shards: nat) -> Seq<Seq<u8>>;

/// What the codec makes of a set of shards, some of them missing, for a
/// code of the given number of data shards.
pub uninterp spec fn rs_reconstructed(shards: Seq<Option<Seq<u8>>>, data_shards: nat) -> Seq<
    Seq<u8>,
>;

/// The code word of the given data shards: the data followed by its parity.
pub open spec fn rs_codeword(data: Seq<Seq<u8>>, parity_shards: nat) -> Seq<Seq<u8>> {
    data + rs_parity(data, parity_shards)
}

/// The shards of a reconstruction buffer as sequences of bytes.
pub open spec fn opt_rows(shards: &Vec<Option<Vec<u8>>>) -> Seq<Option<Seq<u8>>> {
    Seq::new(
        shards@.len(),
        |i: int|
            match shards@[i] {
                Some(s) => Some(s@),
                None => None,
            },
    )
}

/// The number of shards that are present among the first `upto`.
pub open spec fn count_present(shards: Seq<Option<Seq<u8>>>, upto: nat) -> nat
    decreases upto,
{
    if upto == 0 {
        0
    } else {
        count_present(shards, (upto - 1) as nat) + if shards[upto - 1] is Some {
            1nat
        } else {
            0nat
        }
    }
}

/// Shards that the codec accepts for encoding: as many as the code has,
/// all of one length, which is not zero.
pub open spec fn shards_encodable(shards: Seq<Seq<u8>>, total: nat) -> bool {
    &&& shards.len() == total
    &&& total > 0
    &&& shards[0].len() > 0
    &&& forall|i: int| 0 <= i < total ==> (#[trigger] shards[i]).len() == shards[0].len()
}

/// Shards that the codec accepts for reconstruction: as many slots as the
/// code has shards, the present ones all of one length, which is not zero,
/// and at least as many present as the code has data shards.
pub open spec fn reconstructible(shards: Seq<Option<Seq<u8>>>, data_shards: nat, total: nat) -> bool {
    &&& shards.len() == total
    &&& forall|i: int| 0 <= i < total && (#[trigger] shards[i]) is Some ==> shards[i]->0.len() > 0
    &&& forall|i: int, j: int|
        0 <= i < total && 0 <= j < total && (#[trigger] shards[i]) is Some && (
        #[trigger] shards[j]) is Some ==> shards[i]->0.len() == shards[j]->0.len()
    &&& count_present(shards, total) >= data_shards
}

/// Whether every present shard is the shard of `word` at the same place.
pub open spec fn present_agree(shards: Seq<Option<Seq<u8>>>, word: Seq<Seq<u8>>) -> bool {
    &&& shards.len() == word.len()
    &&& forall|i: int|
        0 <= i < shards.len() && (#[trigger] shards[i]) is Some ==> shards[i]->0 == word[i]
}

/// Calls `ReedSolomon::new`, which refuses a code without data shards,
/// without parity shards, or with more than 256 shards in all, and
/// otherwise builds the codec for the two counts.
#[verifier::external_body]
pub(crate) fn codec_new(data_shards: usize, parity_shards: usize) -> (r: Result<Codec, reed_solomon_erasure::Error>)
    requires
        data_shards + parity_shards <= usize::MAX,
    ensures
        r is Ok <==> (data_shards > 0 && parity_shards > 0 && data_shards + parity_shards <= 256),
        r matches Ok(codec) ==> codec_data_shards(codec) == data_shards,
        r matches Ok(codec) ==> codec_parity_shards(codec) == parity_shards,
{
    match reed_solomon_erasure::galois_8::ReedSolomon::new(data_shards, parity_shards) {
        Ok(inner) => Ok(Codec { inner }),
        Err(e) => Err(e),
    }
}

/// Calls `ReedSolomon::encode`, which checks the number and the lengths of
/// the shards and then overwrites the parity shards in place with the
/// parity of the data shards. On an error nothing is written.
#[verifier::external_body]
pub(crate) fn codec_encode(codec: &Codec, shards: &mut Vec<Vec<u8>>) -> (r: Result<(), reed_solomon_erasure::Error>)
    ensures
        r is Ok <==> shards_encodable(
            rows(old(shards)),
            codec_data_shards(*codec) + codec_parity_shards(*codec),
        ),
        r is Err ==> *final(shards) == *old(shards),
        r is Ok ==> rows(final(shards)) == rows(old(shards)).subrange(
            0,
            codec_data_shards(*codec) as int,
        ) + rs_parity(
            rows(old(shards)).subrange(0, codec_data_shards(*codec) as int),
            codec_parity_shards(*codec),
        ),
        r is Ok ==> final(shards)@.len() == old(shards)@.len() && forall|i: int|
            0 <= i < old(shards)@.len() ==> (#[trigger] final(shards)@[i])@.len() == old(shards)@[i]@.len(),
{
    codec.inner.encode(shards)
}

/// Calls `ReedSolomon::reconstruct`, which checks the shards and then
/// fills every missing one in place; the present ones stay. On an error
/// nothing is written. Where the present shards are those of a code word
/// (shards of one length: some data followed by the parity that `encode`
/// computes from it), the result is that code word: this is the erasure
/// code's defining property.
#[verifier::external_body]
pub(crate) fn codec_reconstruct(codec: &Codec, shards: &mut Vec<Option<Vec<u8>>>) -> (r: Result<(), reed_solomon_erasure::Error>)
    ensures
        r is Ok <==> reconstructible(
            opt_rows(old(shards)),
            codec_data_shards(*codec),
            codec_data_shards(*codec) + codec_parity_shards(*codec),
        ),
        r is Err ==> *final(shards) == *old(shards),
        r is Ok ==> final(shards)@.len() == old(shards)@.len(),
        r is Ok ==> forall|i: int|
            0 <= i < old(shards)@.len() ==> (#[trigger] final(shards)@[i]) is Some,
        r is Ok ==> forall|i: int|
            0 <= i < old(shards)@.len() && old(shards)@[i] is Some
                ==> (#[trigger] final(shards)@[i]) == old(shards)@[i],
        r is Ok ==> forall|i: int, j: int|
            0 <= i < old(shards)@.len() && 0 <= j < old(shards)@.len()
                ==> (#[trigger] final(shards)@[i])->0@.len() == (#[trigger] final(shards)@[j])->0@.len(),
        r is Ok ==> opt_rows(final(shards)) == rs_reconstructed(
            opt_rows(old(shards)),
            codec_data_shards(*codec),
        ).map_values(|s: Seq<u8>| Some(s)),
        r is Ok ==> forall|data: Seq<Seq<u8>>|
            data.len() == codec_data_shards(*codec) && shards_encodable(
                rs_codeword(data, codec_parity_shards(*codec)),
                codec_data_shards(*codec) + codec_parity_shards(*codec),
            ) && #[trigger] present_agree(
                opt_rows(old(shards)),
                rs_codeword(data, codec_parity_shards(*codec)),
            ) ==> present_agree(
                opt_rows(final(shards)),
                rs_codeword(data, codec_parity_shards(*codec)),
            ),
{
    codec.inner.reconstruct(shards)
}

/// The text of a codec error, from the `Debug` impl of
/// `reed_solomon_erasure::Error`.
#[verifier::external_body]
pub(crate) fn codec_error_text(e: &reed_solomon_erasure::Error) -> String {
    format!("{:?}", e)
}

} // verus!
