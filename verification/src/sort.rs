//! Putting records in the order of their start, and the assembly of the
//! records of several documents.

use vstd::prelude::*;
use vstd::seq_lib::{lemma_multiset_commutative, to_multiset_build, to_multiset_insert, to_multiset_remove};
use crate::activity::ActivityRecord;
use crate::extract::ExtractError;
use crate::tree::Document;
use crate::unpack::{
    lemma_unpacked_concat, lemma_unpacks_when_each_does, unpack_each, unpacked, unpacked_each,
};

verus! {

/// Whether the records stand in the order of their start, earliest first.
pub open spec fn sorted_by_start(s: Seq<ActivityRecord>) -> bool {
    forall|i: int, j: int| 0 <= i <= j < s.len() ==> (#[trigger] s[i]).start.at_or_before(
        (#[trigger] s[j]).start,
    )
}

/// Where `x` goes into the sorted `s`: behind every record that starts at or
/// before the start of `x`.
pub open spec fn insertion_point(s: Seq<ActivityRecord>, x: ActivityRecord) -> int
    decreases s.len(),
{
    if s.len() == 0 {
        0
    } else if s.last().start.at_or_before(x.start) {
        s.len() as int
    } else {
        insertion_point(s.drop_last(), x)
    }
}

/// The records of `s` in the order of their start. Records with the same
/// start keep the order in which they stand in `s`.
pub open spec fn stable_sorted(s: Seq<ActivityRecord>) -> Seq<ActivityRecord>
    decreases s.len(),
{
    if s.len() == 0 {
        Seq::empty()
    } else {
        let before = stable_sorted(s.drop_last());
        before.insert(insertion_point(before, s.last()), s.last())
    }
}

/// The insertion point lies in the sequence, everything from it on starts
/// after `x`, and in a sorted sequence everything before it starts at or
/// before `x`.
pub proof fn lemma_insertion_point(s: Seq<ActivityRecord>, x: ActivityRecord)
    ensures
        0 <= insertion_point(s, x) <= s.len(),
        forall|j: int|
            insertion_point(s, x) <= j < s.len() ==> !(#[trigger] s[j]).start.at_or_before(x.start),
        sorted_by_start(s) ==> forall|j: int|
            0 <= j < insertion_point(s, x) ==> (#[trigger] s[j]).start.at_or_before(x.start),
    decreases s.len(),
{
    if s.len() > 0 && !s.last().start.at_or_before(x.start) {
        let t = s.drop_last();
        lemma_insertion_point(t, x);
        assert forall|j: int| insertion_point(s, x) <= j < s.len() implies !(#[trigger] s[j]).start.at_or_before(
            x.start,
        ) by {
            if j < t.len() {
                assert(s[j] == t[j]);
            }
        }
        if sorted_by_start(s) {
            assert forall|i: int, j: int| 0 <= i <= j < t.len() implies (#[trigger] t[i]).start.at_or_before(
                (#[trigger] t[j]).start,
            ) by {
                assert(t[i] == s[i] && t[j] == s[j]);
            }
            assert forall|j: int| 0 <= j < insertion_point(s, x) implies (#[trigger] s[j]).start.at_or_before(
                x.start,
            ) by {
                assert(s[j] == t[j]);
            }
        }
    } else if s.len() > 0 {
        if sorted_by_start(s) {
            assert forall|j: int| 0 <= j < insertion_point(s, x) implies (#[trigger] s[j]).start.at_or_before(
                x.start,
            ) by {
                assert(s[j].start.at_or_before(s[s.len() - 1].start));
            }
        }
    }
}

/// Putting a record at its insertion point keeps a sorted sequence sorted.
pub proof fn lemma_insert_keeps_sorted(s: Seq<ActivityRecord>, x: ActivityRecord)
    requires
        sorted_by_start(s),
    ensures
        sorted_by_start(s.insert(insertion_point(s, x), x)),
{
    lemma_insertion_point(s, x);
    let p = insertion_point(s, x);
    let t = s.insert(p, x);
    assert forall|i: int, j: int| 0 <= i <= j < t.len() implies (#[trigger] t[i]).start.at_or_before(
        (#[trigger] t[j]).start,
    ) by {
        if j < p {
            assert(t[i] == s[i] && t[j] == s[j]);
        } else if j == p {
            if i < p {
                assert(t[i] == s[i]);
            }
        } else {
            assert(t[j] == s[j - 1]);
            if i < p {
                assert(t[i] == s[i]);
            } else if i == p {
                assert(!s[j - 1].start.at_or_before(x.start));
            } else {
                assert(t[i] == s[i - 1]);
            }
        }
    }
}

/// Sorting gives a sequence in the order of start that holds the same
/// records, each as often as before.
pub proof fn law_stable_sorted(s: Seq<ActivityRecord>)
    ensures
        sorted_by_start(stable_sorted(s)),
        stable_sorted(s).to_multiset() == s.to_multiset(),
        stable_sorted(s).len() == s.len(),
    decreases s.len(),
{
    if s.len() == 0 {
        assert(stable_sorted(s) =~= s);
    } else {
        let before = stable_sorted(s.drop_last());
        law_stable_sorted(s.drop_last());
        lemma_insertion_point(before, s.last());
        lemma_insert_keeps_sorted(before, s.last());
        to_multiset_insert(before, insertion_point(before, s.last()), s.last());
        to_multiset_build(s.drop_last(), s.last());
        assert(s.drop_last().push(s.last()) == s);
    }
}

/// Sorting leaves a sequence that is in the order of start as it is.
pub proof fn law_sorted_stays(s: Seq<ActivityRecord>)
    requires
        sorted_by_start(s),
    ensures
        stable_sorted(s) == s,
    decreases s.len(),
{
    if s.len() == 0 {
        assert(stable_sorted(s) =~= s);
    } else {
        let t = s.drop_last();
        assert forall|i: int, j: int| 0 <= i <= j < t.len() implies (#[trigger] t[i]).start.at_or_before(
            (#[trigger] t[j]).start,
        ) by {
            assert(t[i] == s[i] && t[j] == s[j]);
        }
        law_sorted_stays(t);
        if t.len() > 0 {
            assert(t.last() == s[t.len() - 1]);
            assert(t.last().start.at_or_before(s.last().start));
        }
        assert(insertion_point(t, s.last()) == t.len());
        assert(t.insert(t.len() as int, s.last()) =~= s);
    }
}

/// In whatever order the same records arrive, sorting puts them in the order
/// of their start, and loses and adds none.
pub proof fn law_sorted_in_any_order(a: Seq<ActivityRecord>, b: Seq<ActivityRecord>)
    requires
        a.to_multiset() == b.to_multiset(),
    ensures
        sorted_by_start(stable_sorted(a)),
        sorted_by_start(stable_sorted(b)),
        stable_sorted(a).to_multiset() == stable_sorted(b).to_multiset(),
{
    law_stable_sorted(a);
    law_stable_sorted(b);
}

/// Whether each record starts after the one before it: the records are in
/// the order of their start and no two start at the same instant.
pub open spec fn strictly_sorted_by_start(s: Seq<ActivityRecord>) -> bool {
    forall|i: int, j: int| 0 <= i < j < s.len() ==> !(#[trigger] s[j]).start.at_or_before(
        (#[trigger] s[i]).start,
    )
}

/// Records of which no two start at the same instant can stand in the order
/// of their start in one way only.
proof fn lemma_one_sorted_order(s: Seq<ActivityRecord>, t: Seq<ActivityRecord>)
    requires
        strictly_sorted_by_start(s),
        sorted_by_start(t),
        s.to_multiset() == t.to_multiset(),
    ensures
        s == t,
    decreases s.len(),
{
    s.to_multiset_ensures();
    t.to_multiset_ensures();
    if s.len() == 0 {
        assert(t.len() == 0);
        assert(s =~= t);
    } else {
        let n = s.len() - 1;
        assert(t.len() == s.len());
        assert(t.contains(t[n]));
        assert(s.to_multiset().count(t[n]) > 0);
        let k = choose|k: int| 0 <= k < s.len() && s[k] == t[n];
        assert(s.contains(s[n]));
        assert(t.to_multiset().count(s[n]) > 0);
        let m = choose|m: int| 0 <= m < t.len() && t[m] == s[n];
        assert(t[m].start.at_or_before(t[n].start));
        assert(k == n);
        to_multiset_remove(s, n);
        to_multiset_remove(t, n);
        assert(s.remove(n) == s.drop_last());
        assert(t.remove(n) == t.drop_last());
        let shorter = s.drop_last();
        let other = t.drop_last();
        assert forall|i: int, j: int| 0 <= i < j < shorter.len() implies !(#[trigger] shorter[j]).start.at_or_before(
            (#[trigger] shorter[i]).start,
        ) by {
            assert(shorter[i] == s[i] && shorter[j] == s[j]);
        }
        assert forall|i: int, j: int| 0 <= i <= j < other.len() implies (#[trigger] other[i]).start.at_or_before(
            (#[trigger] other[j]).start,
        ) by {
            assert(other[i] == t[i] && other[j] == t[j]);
        }
        lemma_one_sorted_order(shorter, other);
        assert(s == shorter.push(s[n]));
        assert(t == other.push(t[n]));
    }
}

/// Where no two records start at the same instant, the order in which they
/// arrive makes no difference at all to the sorted sequence.
pub proof fn law_sorted_regardless_of_order(a: Seq<ActivityRecord>, b: Seq<ActivityRecord>)
    requires
        a.to_multiset() == b.to_multiset(),
        strictly_sorted_by_start(stable_sorted(a)),
    ensures
        stable_sorted(b) == stable_sorted(a),
{
    law_stable_sorted(a);
    law_stable_sorted(b);
    lemma_one_sorted_order(stable_sorted(a), stable_sorted(b));
}

/// Taking one document out of several takes its records out of theirs.
proof fn lemma_without_one(documents: Seq<Document>, j: int)
    requires
        0 <= j < documents.len(),
        unpacked_each(documents) is Ok,
    ensures
        unpacked(documents[j]) is Ok,
        unpacked_each(documents.remove(j)) is Ok,
        unpacked_each(documents)->Ok_0.to_multiset() == unpacked_each(
            documents.remove(j),
        )->Ok_0.to_multiset().add(unpacked(documents[j])->Ok_0.to_multiset()),
{
    let before = documents.take(j);
    let one = seq![documents[j]];
    let after = documents.skip(j + 1);
    assert(documents == (before + one) + after);
    assert(documents.remove(j) == before + after);
    lemma_unpacked_concat(before + one, after);
    lemma_unpacked_concat(before, one);
    lemma_unpacked_concat(before, after);
    assert(one.drop_last() == Seq::<Document>::empty());
    assert(one.last() == documents[j]);
    let b = unpacked_each(before)->Ok_0;
    let x = unpacked(documents[j])->Ok_0;
    let a = unpacked_each(after)->Ok_0;
    assert(unpacked_each(one)->Ok_0 == x) by {
        assert(unpacked_each(one.drop_last()) == Ok::<Seq<ActivityRecord>, ExtractError>(
            Seq::empty(),
        ));
        assert(Seq::<ActivityRecord>::empty() + x == x);
    }
    lemma_multiset_commutative(b + x, a);
    lemma_multiset_commutative(b, x);
    lemma_multiset_commutative(b, a);
    assert(((b + x) + a).to_multiset() =~= (b + a).to_multiset().add(x.to_multiset()));
}

/// The same documents in another order hold the same records.
proof fn lemma_same_records(a: Seq<Document>, b: Seq<Document>)
    requires
        a.to_multiset() == b.to_multiset(),
        unpacked_each(a) is Ok,
        unpacked_each(b) is Ok,
    ensures
        unpacked_each(a)->Ok_0.to_multiset() == unpacked_each(b)->Ok_0.to_multiset(),
    decreases a.len(),
{
    a.to_multiset_ensures();
    b.to_multiset_ensures();
    if a.len() == 0 {
        assert(b.len() == 0);
        assert(a == b);
    } else {
        let x = a.last();
        let n = a.len() - 1;
        assert(a[n] == x);
        assert(a.contains(x));
        assert(b.to_multiset().count(x) > 0);
        let j = choose|j: int| 0 <= j < b.len() && b[j] == x;
        assert(a.remove(n) == a.drop_last());
        to_multiset_remove(a, n);
        to_multiset_remove(b, j);
        lemma_without_one(a, n);
        lemma_without_one(b, j);
        lemma_same_records(a.remove(n), b.remove(j));
    }
}

/// The order in which the documents are given does not matter to the
/// assembly: whenever the same documents are given in two orders, both
/// orders fail or none does, and where none fails both give the same
/// records, each as often as the other, in the order of their start.
pub proof fn law_assembly_in_any_document_order(a: Seq<Document>, b: Seq<Document>)
    requires
        a.to_multiset() == b.to_multiset(),
    ensures
        unpacked_each(a) is Ok <==> unpacked_each(b) is Ok,
        unpacked_each(a) matches Ok(found_a) ==> {
            &&& unpacked_each(b) matches Ok(found_b)
            &&& sorted_by_start(stable_sorted(found_a))
            &&& sorted_by_start(stable_sorted(found_b))
            &&& stable_sorted(found_a).to_multiset() == stable_sorted(found_b).to_multiset()
        },
{
    a.to_multiset_ensures();
    b.to_multiset_ensures();
    lemma_unpacks_when_each_does(a);
    lemma_unpacks_when_each_does(b);
    if unpacked_each(a) is Ok {
        assert forall|i: int| 0 <= i < b.len() implies unpacked(#[trigger] b[i]) is Ok by {
            assert(b.contains(b[i]));
            assert(a.to_multiset().count(b[i]) > 0);
            let k = choose|k: int| 0 <= k < a.len() && a[k] == b[i];
            assert(unpacked(a[k]) is Ok);
        }
    }
    if unpacked_each(b) is Ok {
        assert forall|i: int| 0 <= i < a.len() implies unpacked(#[trigger] a[i]) is Ok by {
            assert(a.contains(a[i]));
            assert(b.to_multiset().count(a[i]) > 0);
            let k = choose|k: int| 0 <= k < b.len() && b[k] == a[i];
            assert(unpacked(b[k]) is Ok);
        }
    }
    if unpacked_each(a) is Ok {
        lemma_same_records(a, b);
        law_stable_sorted(unpacked_each(a)->Ok_0);
        law_stable_sorted(unpacked_each(b)->Ok_0);
    }
}

/// Sorts records by their start, earliest first. Records with the same
/// start keep their order. Each record is moved back from the end to its
/// place: records that arrive nearly in order, as those of documents do, take
/// little more than one pass, records in reverse order take the square of
/// their number in steps.
pub fn sort_by_start(records: Vec<ActivityRecord>) -> (r: Vec<ActivityRecord>)
    ensures
        r@ == stable_sorted(records@),
        sorted_by_start(r@),
        r@.to_multiset() == records@.to_multiset(),
{
    let mut out: Vec<ActivityRecord> = Vec::new();
    let mut i: usize = 0;
    assert(records@.take(0) =~= Seq::empty());
    while i < records.len()
        invariant
            i <= records.len(),
            out@ == stable_sorted(records@.take(i as int)),
            out@.len() == i,
        decreases records.len() - i,
    {
        let x = records[i];
        let mut pos: usize = out.len();
        assert(out@.take(pos as int) == out@);
        while pos > 0 && !out[pos - 1].start.is_at_or_before(&x.start)
            invariant
                pos <= out.len(),
                insertion_point(out@, x) == insertion_point(out@.take(pos as int), x),
            decreases pos,
        {
            assert(out@.take(pos as int).drop_last() == out@.take(pos - 1));
            pos -= 1;
        }
        proof {
            assert(records@.take(i + 1).drop_last() == records@.take(i as int));
            assert(records@.take(i + 1).last() == x);
            assert(insertion_point(out@, x) == pos);
        }
        out.insert(pos, x);
        i += 1;
    }
    proof {
        assert(records@.take(i as int) == records@);
        law_stable_sorted(records@);
    }
    out
}

/// Gathers the records of all `documents` and puts them in the order of
/// their start. The order in which the documents are given decides only
/// which of two records with the same start comes first, and which error is
/// reported where more than one document is badly written.
pub fn assemble(documents: &Vec<Document>) -> (r: Result<Vec<ActivityRecord>, ExtractError>)
    ensures
        match r {
            Ok(records) => {
                &&& unpacked_each(documents@) matches Ok(found)
                &&& records@ == stable_sorted(found)
                &&& sorted_by_start(records@)
                &&& records@.to_multiset() == found.to_multiset()
            },
            Err(e) => unpacked_each(documents@) == Err::<Seq<ActivityRecord>, ExtractError>(e),
        },
{
    match unpack_each(documents) {
        Ok(found) => Ok(sort_by_start(found)),
        Err(e) => Err(e),
    }
}

} // verus!
