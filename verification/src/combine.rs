//! Folding every digest and byte blob of a build into one final digest.
//!
//! The items are sorted as plain byte sequences and hashed one after the
//! other in that order, so the order in which they were found plays no part.

use crate::order::{bytes_order, chunks_of, lemma_bytes_order_total, sort_digests, sorted_chunks};
use blake2::Blake2b;
use digest::Digest;
use vstd::prelude::*;
use vstd::seq_lib::lemma_sorted_unique;

verus! {

/// The BLAKE2b hash of `data`, with 64 bytes of output and no key.
pub uninterp spec fn blake2b(data: Seq<u8>) -> Seq<u8>;

/// Calls `Digest::digest` of `blake2::Blake2b`, which makes a hasher, feeds
/// it `data` and takes its result.
///
/// Trusted: the result is the BLAKE2b hash of `data` and depends on nothing
/// else, and it is 64 bytes long, the output size that the type fixes.
#[verifier::external_body]
fn blake2b_digest(data: &[u8]) -> (digest: Vec<u8>)
    ensures
        digest@ == blake2b(data@),
        digest@.len() == 64,
{
    Blake2b::digest(data).to_vec()
}

/// The bytes that are hashed for a collection of items: the items in
/// lexicographic order, one after the other with nothing in between.
pub open spec fn hash_input(items: Seq<Seq<u8>>) -> Seq<u8> {
    sorted_chunks(items).flatten()
}

/// The final digest of a collection of items.
pub open spec fn final_digest(items: Seq<Seq<u8>>) -> Seq<u8> {
    blake2b(hash_input(items))
}

/// Sorts the items and joins them into the one byte string that is hashed.
pub fn concat_sorted(items: Vec<Vec<u8>>) -> (bytes: Vec<u8>)
    ensures
        bytes@ == hash_input(chunks_of(items@)),
{
    let ghost unsorted = chunks_of(items@);
    let sorted = sort_digests(items);
    let mut bytes: Vec<u8> = Vec::new();
    let mut i: usize = 0;
    while i < sorted.len()
        invariant
            i <= sorted.len(),
            bytes@ == chunks_of(sorted@).take(i as int).flatten(),
        decreases sorted.len() - i,
    {
        let ghost before = bytes@;
        bytes.extend_from_slice(sorted[i].as_slice());
        proof {
            let chunks = chunks_of(sorted@);
            assert(bytes@ =~= before + chunks[i as int]);
            assert(chunks.take(i + 1) =~= chunks.take(i as int).push(chunks[i as int]));
            chunks.take(i as int).lemma_flatten_push(chunks[i as int]);
        }
        i += 1;
    }
    proof {
        assert(chunks_of(sorted@).take(i as int) =~= chunks_of(sorted@));
    }
    bytes
}

/// The final digest of the items: BLAKE2b over the sorted items, joined.
pub fn combine_digests(items: Vec<Vec<u8>>) -> (digest: Vec<u8>)
    ensures
        digest@ == final_digest(chunks_of(items@)),
        digest@.len() == 64,
{
    let bytes = concat_sorted(items);
    blake2b_digest(bytes.as_slice())
}

/// Two collections that hold the same items, each as often in the one as in
/// the other, are hashed as the same bytes: the order of the items is lost.
pub proof fn lemma_hash_input_ignores_order(a: Seq<Seq<u8>>, b: Seq<Seq<u8>>)
    requires
        a.to_multiset() == b.to_multiset(),
    ensures
        hash_input(a) == hash_input(b),
        final_digest(a) == final_digest(b),
{
    let leq = bytes_order();
    lemma_bytes_order_total();
    a.lemma_sort_by_ensures(leq);
    b.lemma_sort_by_ensures(leq);
    lemma_sorted_unique(a.sort_by(leq), b.sort_by(leq), leq);
}

} // verus!
