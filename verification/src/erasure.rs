//! The Reed-Solomon code over GF(2^8) that FEC sets are protected by.

use vstd::prelude::*;

verus! {

/// The bytes of shards, where they are there.
pub open spec fn shard_bytes(shards: Seq<Option<Vec<u8>>>) -> Seq<Option<Seq<u8>>> {
    shards.map_values(
        |shard: Option<Vec<u8>>|
            match shard {
                Some(bytes) => Some(bytes@),
                None => None,
            },
    )
}

/// How many of the shards are there.
pub open spec fn present(shards: Seq<Option<Seq<u8>>>) -> nat {
    shards.filter(|shard: Option<Seq<u8>>| shard is Some).len()
}

/// Whether the missing ones of `shards` can be computed from the others: the counts make a code,
/// no shard that is there is empty, all of them are of one length, and there are enough of them.
pub open spec fn recoverable(
    num_data: usize,
    num_code: usize,
    shards: Seq<Option<Seq<u8>>>,
) -> bool {
    &&& 0 < num_data
    &&& 0 < num_code
    &&& num_data + num_code <= 256
    &&& shards.len() == num_data + num_code
    &&& forall|i: int|
        #![trigger shards[i]]
        0 <= i < shards.len() && shards[i] is Some ==> shards[i]->0.len() > 0
    &&& forall|i: int, j: int|
        #![trigger shards[i], shards[j]]
        0 <= i < shards.len() && 0 <= j < shards.len() && shards[i] is Some && shards[j] is Some
            ==> shards[i]->0.len() == shards[j]->0.len()
    &&& num_data <= present(shards)
}

/// `full` is `shards` with every gap filled by bytes of the length that the others have.
pub open spec fn completes(full: Seq<Option<Seq<u8>>>, shards: Seq<Option<Seq<u8>>>) -> bool {
    &&& full.len() == shards.len()
    &&& forall|i: int| 0 <= i < full.len() ==> (#[trigger] full[i]) is Some
    &&& forall|i: int|
        #![trigger shards[i]]
        0 <= i < shards.len() && shards[i] is Some ==> full[i] == shards[i]
    &&& forall|i: int, j: int|
        #![trigger full[i], full[j]]
        0 <= i < full.len() && 0 <= j < full.len() ==> full[i]->0.len() == full[j]->0.len()
}

/// All shards of a set, as `ReedSolomon::reconstruct` computes them from those that are there.
pub uninterp spec fn reed_solomon_shards(
    num_data: usize,
    num_code: usize,
    shards: Seq<Option<Seq<u8>>>,
) -> Seq<Option<Seq<u8>>>;

/// Whether `shards` are some of the shards of `full`, each in its place.
pub open spec fn part_of(shards: Seq<Option<Seq<u8>>>, full: Seq<Seq<u8>>) -> bool {
    &&& shards.len() == full.len()
    &&& forall|i: int|
        #![trigger shards[i]]
        0 <= i < shards.len() && shards[i] is Some ==> shards[i] == Some(full[i])
}

/// Whether `full` are the shards of a set whose parity belongs to its data: any of them, if they
/// are as many as the data shards, give back all of them.
pub open spec fn codeword(num_data: usize, num_code: usize, full: Seq<Seq<u8>>) -> bool {
    &&& full.len() == num_data + num_code
    &&& forall|shards: Seq<Option<Seq<u8>>>|
        part_of(shards, full) && present(shards) >= num_data ==> #[trigger] reed_solomon_shards(
            num_data,
            num_code,
            shards,
        ) == full.map_values(|shard: Seq<u8>| Some(shard))
}

/// `reed_solomon_erasure::galois_8::ReedSolomon::new` and `reconstruct`: makes the code for the two
/// counts and fills the gaps in `shards`. It succeeds if and only if the shards are recoverable,
/// then leaves those that were there as they were and gives the others their length; what bytes it
/// gives them has a name and is not stated. Where it fails it touches nothing.
#[verifier::external_body]
pub(crate) fn reconstruct(
    num_data: usize,
    num_code: usize,
    shards: &mut Vec<Option<Vec<u8>>>,
) -> (done: bool)
    requires
        num_data + num_code <= usize::MAX,
    ensures
        done == recoverable(num_data, num_code, shard_bytes(old(shards)@)),
        done ==> shard_bytes(final(shards)@) == reed_solomon_shards(
            num_data,
            num_code,
            shard_bytes(old(shards)@),
        ),
        done ==> completes(shard_bytes(final(shards)@), shard_bytes(old(shards)@)),
        !done ==> final(shards)@ == old(shards)@,
{
    reed_solomon_erasure::galois_8::ReedSolomon::new(num_data, num_code)
        .and_then(|code| code.reconstruct(shards.as_mut_slice()))
        .is_ok()
}

} // verus!
