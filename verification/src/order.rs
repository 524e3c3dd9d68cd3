//! The order in which digests and byte blobs are hashed: ordinary
//! lexicographic order of byte sequences, and a sort by it.

use vstd::prelude::*;
use vstd::relations::{sorted_by, total_ordering};
use vstd::seq_lib::{lemma_sorted_unique, to_multiset_build, to_multiset_insert};

verus! {

/// `a` comes before `b`, or equals it, in lexicographic order: at the first
/// position where they differ `a` holds the smaller byte, or `a` ends first.
pub open spec fn bytes_le(a: Seq<u8>, b: Seq<u8>) -> bool
    decreases a.len(),
{
    if a.len() == 0 {
        true
    } else if b.len() == 0 {
        false
    } else if a[0] == b[0] {
        bytes_le(a.drop_first(), b.drop_first())
    } else {
        a[0] < b[0]
    }
}

/// `bytes_le` as a relation, in the form that `sorted_by` and `sort_by` take.
pub open spec fn bytes_order() -> spec_fn(Seq<u8>, Seq<u8>) -> bool {
    |a: Seq<u8>, b: Seq<u8>| bytes_le(a, b)
}

/// The byte sequences that a vector of byte vectors holds.
pub open spec fn chunks_of(items: Seq<Vec<u8>>) -> Seq<Seq<u8>> {
    items.map_values(|chunk: Vec<u8>| chunk@)
}

/// The items in lexicographic order, equal items side by side.
pub open spec fn sorted_chunks(items: Seq<Seq<u8>>) -> Seq<Seq<u8>> {
    items.sort_by(bytes_order())
}

/// Every byte sequence is at most itself.
pub proof fn lemma_bytes_le_reflexive(a: Seq<u8>)
    ensures
        bytes_le(a, a),
    decreases a.len(),
{
    if a.len() > 0 {
        lemma_bytes_le_reflexive(a.drop_first());
    }
}

/// Two byte sequences that are each at most the other are the same.
pub proof fn lemma_bytes_le_antisymmetric(a: Seq<u8>, b: Seq<u8>)
    requires
        bytes_le(a, b),
        bytes_le(b, a),
    ensures
        a == b,
    decreases a.len(),
{
    if a.len() == 0 {
        assert(a =~= b);
    } else {
        lemma_bytes_le_antisymmetric(a.drop_first(), b.drop_first());
        assert(a =~= seq![a[0]] + a.drop_first());
        assert(b =~= seq![b[0]] + b.drop_first());
    }
}

/// What is at most something that is at most a third is at most the third.
pub proof fn lemma_bytes_le_transitive(a: Seq<u8>, b: Seq<u8>, c: Seq<u8>)
    requires
        bytes_le(a, b),
        bytes_le(b, c),
    ensures
        bytes_le(a, c),
    decreases a.len(),
{
    if a.len() > 0 && a[0] == b[0] && b[0] == c[0] {
        lemma_bytes_le_transitive(a.drop_first(), b.drop_first(), c.drop_first());
    }
}

/// Of two byte sequences one is at most the other.
pub proof fn lemma_bytes_le_connected(a: Seq<u8>, b: Seq<u8>)
    ensures
        bytes_le(a, b) || bytes_le(b, a),
    decreases a.len(),
{
    if a.len() > 0 && b.len() > 0 && a[0] == b[0] {
        lemma_bytes_le_connected(a.drop_first(), b.drop_first());
    }
}

/// Lexicographic order is a total order, so a sequence has exactly one
/// sorted arrangement.
pub proof fn lemma_bytes_order_total()
    ensures
        total_ordering(bytes_order()),
{
    let leq = bytes_order();
    assert forall|a: Seq<u8>| #[trigger] leq(a, a) by {
        lemma_bytes_le_reflexive(a);
    }
    assert forall|a: Seq<u8>, b: Seq<u8>| #[trigger] leq(a, b) && #[trigger] leq(b, a) implies a
        == b by {
        lemma_bytes_le_antisymmetric(a, b);
    }
    assert forall|a: Seq<u8>, b: Seq<u8>, c: Seq<u8>| #[trigger]
        leq(a, b) && #[trigger] leq(b, c) implies leq(a, c) by {
        lemma_bytes_le_transitive(a, b, c);
    }
    assert forall|a: Seq<u8>, b: Seq<u8>| #[trigger] leq(a, b) || #[trigger] leq(b, a) by {
        lemma_bytes_le_connected(a, b);
    }
}

/// Whether `a` comes before `b`, or equals it, in lexicographic order.
pub fn bytes_le_exec(a: &Vec<u8>, b: &Vec<u8>) -> (le: bool)
    ensures
        le == bytes_le(a@, b@),
{
    let mut i: usize = 0;
    assert(a@.skip(0) =~= a@ && b@.skip(0) =~= b@);
    while i < a.len() && i < b.len()
        invariant
            i <= a.len(),
            i <= b.len(),
            bytes_le(a@, b@) == bytes_le(a@.skip(i as int), b@.skip(i as int)),
        decreases a.len() - i,
    {
        if a[i] != b[i] {
            return a[i] < b[i];
        }
        proof {
            assert(a@.skip(i as int).drop_first() =~= a@.skip(i + 1));
            assert(b@.skip(i as int).drop_first() =~= b@.skip(i + 1));
        }
        i += 1;
    }
    i == a.len()
}

/// The first place in `sorted` at which `item` may stand: everything before
/// it is at most `item`, and `item` is at most everything from there on.
fn insertion_point(sorted: &Vec<Vec<u8>>, item: &Vec<u8>) -> (pos: usize)
    requires
        sorted_by(chunks_of(sorted@), bytes_order()),
    ensures
        pos <= sorted.len(),
        forall|j: int| 0 <= j < pos ==> bytes_le(#[trigger] chunks_of(sorted@)[j], item@),
        forall|j: int|
            pos <= j < sorted.len() ==> bytes_le(item@, #[trigger] chunks_of(sorted@)[j]),
{
    let mut pos: usize = 0;
    while pos < sorted.len() && bytes_le_exec(&sorted[pos], item)
        invariant
            pos <= sorted.len(),
            forall|j: int| 0 <= j < pos ==> bytes_le(#[trigger] chunks_of(sorted@)[j], item@),
        decreases sorted.len() - pos,
    {
        pos += 1;
    }
    proof {
        let view = chunks_of(sorted@);
        let leq = bytes_order();
        assert forall|j: int| pos <= j < sorted.len() implies bytes_le(
            item@,
            #[trigger] view[j],
        ) by {
            lemma_bytes_le_connected(view[pos as int], item@);
            if pos < j {
                assert(leq(view[pos as int], view[j]));
                lemma_bytes_le_transitive(item@, view[pos as int], view[j]);
            }
        }
    }
    pos
}

/// Sorts byte sequences into lexicographic order.
///
/// The result holds the same items, each as often as `items` did: it is
/// the one sorted arrangement of them, whatever order they came in.
pub fn sort_digests(items: Vec<Vec<u8>>) -> (sorted: Vec<Vec<u8>>)
    ensures
        chunks_of(sorted@) == sorted_chunks(chunks_of(items@)),
        sorted_by(chunks_of(sorted@), bytes_order()),
        chunks_of(sorted@).to_multiset() == chunks_of(items@).to_multiset(),
        sorted@.len() == items@.len(),
{
    let ghost all = chunks_of(items@);
    let ghost leq = bytes_order();
    let ghost count = items@.len();
    let mut rest = items;
    let mut sorted: Vec<Vec<u8>> = Vec::new();
    proof {
        assert(chunks_of(sorted@) =~= Seq::<Seq<u8>>::empty());
        assert(chunks_of(sorted@).to_multiset().add(chunks_of(rest@).to_multiset())
            =~= all.to_multiset()) by {
            broadcast use vstd::seq_lib::group_to_multiset_ensures;
        }
    }
    while rest.len() > 0
        invariant
            leq == bytes_order(),
            sorted_by(chunks_of(sorted@), leq),
            chunks_of(sorted@).to_multiset().add(chunks_of(rest@).to_multiset())
                == all.to_multiset(),
            sorted@.len() + rest@.len() == count,
        decreases rest.len(),
    {
        let ghost rest_before = chunks_of(rest@);
        let ghost sorted_before = chunks_of(sorted@);
        let item = rest.pop().unwrap();
        let pos = insertion_point(&sorted, &item);
        let ghost chunk = item@;
        sorted.insert(pos, item);
        proof {
            let rest_after = chunks_of(rest@);
            let sorted_after = chunks_of(sorted@);
            assert(rest_before =~= rest_after.push(chunk));
            to_multiset_build(rest_after, chunk);
            assert(sorted_after =~= sorted_before.insert(pos as int, chunk));
            to_multiset_insert(sorted_before, pos as int, chunk);
            assert(sorted_after.to_multiset().add(rest_after.to_multiset())
                =~= sorted_before.to_multiset().add(rest_before.to_multiset()));
            assert forall|i: int, j: int| 0 <= i < j < sorted_after.len() implies #[trigger] leq(
                sorted_after[i],
                sorted_after[j],
            ) by {
                if j < pos {
                    assert(leq(sorted_before[i], sorted_before[j]));
                } else if j == pos {
                    assert(bytes_le(sorted_before[i], chunk));
                } else if i < pos {
                    assert(leq(sorted_before[i], sorted_before[j - 1]));
                } else if i == pos {
                    assert(bytes_le(chunk, sorted_before[j - 1]));
                } else {
                    assert(leq(sorted_before[i - 1], sorted_before[j - 1]));
                }
            }
        }
    }
    proof {
        assert(chunks_of(rest@) =~= Seq::<Seq<u8>>::empty());
        assert(chunks_of(sorted@).to_multiset() =~= all.to_multiset()) by {
            broadcast use vstd::seq_lib::group_to_multiset_ensures;
        }
        lemma_bytes_order_total();
        all.lemma_sort_by_ensures(leq);
        lemma_sorted_unique(chunks_of(sorted@), all.sort_by(leq), leq);
    }
    sorted
}

} // verus!
