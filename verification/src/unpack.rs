//! From a whole document to the records in it, in document order.

use vstd::prelude::*;
use crate::activity::ActivityRecord;
use crate::extract::{extraction, ExtractError};
use crate::tree::{Document, Placemark};

verus! {

/// The records of `document` in depth-first, child-by-child order: those of
/// a wrapper's or a container's elements one after another, the one record
/// of a placemark if it has one, none for any other element. The first
/// placemark in that order that fails makes the whole document fail.
pub open spec fn unpacked(document: Document) -> Result<Seq<ActivityRecord>, ExtractError>
    decreases document,
{
    match document {
        Document::Wrapper(elements) => unpacked_each(elements@),
        Document::Container(elements) => unpacked_each(elements@),
        Document::Placemark(placemark) => match extraction(placemark) {
            Ok(Some(record)) => Ok(seq![record]),
            Ok(None) => Ok(Seq::empty()),
            Err(e) => Err(e),
        },
        Document::Other => Ok(Seq::empty()),
    }
}

/// The records of `documents`, one document after another. The first
/// document that fails makes the whole fail.
pub open spec fn unpacked_each(documents: Seq<Document>) -> Result<Seq<ActivityRecord>, ExtractError>
    decreases documents,
{
    if documents.len() == 0 {
        Ok(Seq::empty())
    } else {
        match unpacked_each(documents.drop_last()) {
            Err(e) => Err(e),
            Ok(before) => match unpacked(documents.last()) {
                Err(e) => Err(e),
                Ok(records) => Ok(before + records),
            },
        }
    }
}

/// Whether `result` is what unpacking `document` gives.
pub open spec fn is_unpacking_of(
    result: Result<Vec<ActivityRecord>, ExtractError>,
    document: Document,
) -> bool {
    match result {
        Ok(records) => unpacked(document) == Ok::<Seq<ActivityRecord>, ExtractError>(records@),
        Err(e) => unpacked(document) == Err::<Seq<ActivityRecord>, ExtractError>(e),
    }
}

/// Whether `placemark` stands in `document`, at any depth below wrappers
/// and containers.
pub open spec fn holds_placemark(document: Document, placemark: Placemark) -> bool
    decreases document,
{
    match document {
        Document::Wrapper(elements) => exists|i: int|
            0 <= i < elements@.len() && holds_placemark(#[trigger] elements@[i], placemark),
        Document::Container(elements) => exists|i: int|
            0 <= i < elements@.len() && holds_placemark(#[trigger] elements@[i], placemark),
        Document::Placemark(p) => p == placemark,
        Document::Other => false,
    }
}

/// Unpacking the same document twice gives the same records in the same
/// order, or the same error.
pub proof fn law_unpacking_is_repeatable(
    document: Document,
    first: Result<Vec<ActivityRecord>, ExtractError>,
    second: Result<Vec<ActivityRecord>, ExtractError>,
)
    requires
        is_unpacking_of(first, document),
        is_unpacking_of(second, document),
    ensures
        first is Ok == second is Ok,
        first matches Ok(a) ==> second matches Ok(b) && a@ == b@,
        first matches Err(e) ==> second == Err::<Vec<ActivityRecord>, ExtractError>(e),
{
}

/// One document that fails makes the documents it stands among fail.
proof fn lemma_failure_spreads(documents: Seq<Document>, i: int)
    requires
        0 <= i < documents.len(),
        unpacked(documents[i]) is Err,
    ensures
        unpacked_each(documents) is Err,
    decreases documents.len(),
{
    if i < documents.len() - 1 {
        assert(documents.drop_last()[i] == documents[i]);
        lemma_failure_spreads(documents.drop_last(), i);
    }
}

/// A badly written placemark anywhere in a document makes the unpacking of
/// the whole document fail: no record of it is returned.
pub proof fn law_malformed_placemark_fails_document(document: Document, placemark: Placemark)
    requires
        holds_placemark(document, placemark),
        extraction(placemark) is Err,
    ensures
        unpacked(document) is Err,
    decreases document,
{
    match document {
        Document::Wrapper(elements) => {
            let i = choose|i: int|
                0 <= i < elements@.len() && holds_placemark(#[trigger] elements@[i], placemark);
            law_malformed_placemark_fails_document(elements@[i], placemark);
            lemma_failure_spreads(elements@, i);
        },
        Document::Container(elements) => {
            let i = choose|i: int|
                0 <= i < elements@.len() && holds_placemark(#[trigger] elements@[i], placemark);
            law_malformed_placemark_fails_document(elements@[i], placemark);
            lemma_failure_spreads(elements@, i);
        },
        Document::Placemark(p) => {},
        Document::Other => {},
    }
}

/// Documents unpack as a whole exactly when each of them does.
pub proof fn lemma_unpacks_when_each_does(documents: Seq<Document>)
    ensures
        unpacked_each(documents) is Ok <==> forall|i: int|
            0 <= i < documents.len() ==> unpacked(#[trigger] documents[i]) is Ok,
    decreases documents.len(),
{
    if documents.len() > 0 {
        let shorter = documents.drop_last();
        lemma_unpacks_when_each_does(shorter);
        if unpacked_each(documents) is Ok {
            assert forall|i: int| 0 <= i < documents.len() implies unpacked(
                #[trigger] documents[i],
            ) is Ok by {
                if i < shorter.len() {
                    assert(documents[i] == shorter[i]);
                }
            }
        }
        if forall|i: int| 0 <= i < documents.len() ==> unpacked(#[trigger] documents[i]) is Ok {
            assert forall|i: int| 0 <= i < shorter.len() implies unpacked(
                #[trigger] shorter[i],
            ) is Ok by {
                assert(shorter[i] == documents[i]);
            }
            assert(unpacked(documents[documents.len() - 1]) is Ok);
        }
    }
}

/// The records of documents put one after another are the records of the
/// first part followed by those of the second.
pub proof fn lemma_unpacked_concat(first: Seq<Document>, second: Seq<Document>)
    ensures
        unpacked_each(first + second) is Ok <==> unpacked_each(first) is Ok && unpacked_each(
            second,
        ) is Ok,
        unpacked_each(first + second) matches Ok(all) ==> {
            &&& unpacked_each(first) matches Ok(a)
            &&& unpacked_each(second) matches Ok(b)
            &&& all == a + b
        },
    decreases second.len(),
{
    if second.len() == 0 {
        assert(first + second == first);
        if let Ok(a) = unpacked_each(first) {
            assert(a + Seq::<ActivityRecord>::empty() == a);
        }
    } else {
        let whole = first + second;
        assert(whole.drop_last() == first + second.drop_last());
        assert(whole.last() == second.last());
        lemma_unpacked_concat(first, second.drop_last());
        if let Ok(all) = unpacked_each(whole) {
            let a = unpacked_each(first)->Ok_0;
            let b = unpacked_each(second.drop_last())->Ok_0;
            let last = unpacked(second.last())->Ok_0;
            assert((a + b) + last == a + (b + last));
        }
    }
}

/// Once a leading part of `documents` fails, the whole fails in the same
/// way.
proof fn lemma_failure_stays(documents: Seq<Document>, k: int, e: ExtractError)
    requires
        0 <= k <= documents.len(),
        unpacked_each(documents.take(k)) == Err::<Seq<ActivityRecord>, ExtractError>(e),
    ensures
        unpacked_each(documents) == Err::<Seq<ActivityRecord>, ExtractError>(e),
    decreases documents.len() - k,
{
    if k < documents.len() {
        assert(documents.take(k + 1).drop_last() == documents.take(k));
        lemma_failure_stays(documents, k + 1, e);
    } else {
        assert(documents.take(k) == documents);
    }
}

/// Unpacks one document: every activity record in it, in document order.
/// Containers are walked depth first; elements that are neither containers
/// nor placemarks are passed over. The first placemark that is badly written
/// ends the walk with its error.
pub fn unpack(document: &Document) -> (r: Result<Vec<ActivityRecord>, ExtractError>)
    ensures
        is_unpacking_of(r, *document),
    decreases document,
{
    match document {
        Document::Wrapper(elements) => unpack_each(elements),
        Document::Container(elements) => unpack_each(elements),
        Document::Placemark(placemark) => match ActivityRecord::try_from_placemark(placemark) {
            Ok(Some(record)) => {
                let mut records: Vec<ActivityRecord> = Vec::new();
                records.push(record);
                assert(records@ == seq![record]);
                Ok(records)
            },
            Ok(None) => Ok(Vec::new()),
            Err(e) => Err(e),
        },
        Document::Other => Ok(Vec::new()),
    }
}

/// Unpacks several documents, or the elements of one container, one after
/// another, and joins their records in that order.
pub fn unpack_each(documents: &Vec<Document>) -> (r: Result<Vec<ActivityRecord>, ExtractError>)
    ensures
        match r {
            Ok(records) => unpacked_each(documents@) == Ok::<Seq<ActivityRecord>, ExtractError>(
                records@,
            ),
            Err(e) => unpacked_each(documents@) == Err::<Seq<ActivityRecord>, ExtractError>(e),
        },
    decreases documents,
{
    let mut records: Vec<ActivityRecord> = Vec::new();
    let mut i: usize = 0;
    while i < documents.len()
        invariant
            i <= documents.len(),
            unpacked_each(documents@.take(i as int)) == Ok::<Seq<ActivityRecord>, ExtractError>(
                records@,
            ),
        decreases documents.len() - i,
    {
        proof {
            assert(documents@.take(i + 1).drop_last() == documents@.take(i as int));
            assert(documents@.take(i + 1).last() == documents@[i as int]);
        }
        match unpack(&documents[i]) {
            Ok(mut found) => {
                records.append(&mut found);
            },
            Err(e) => {
                proof {
                    lemma_failure_stays(documents@, i + 1, e);
                }
                return Err(e);
            },
        }
        i += 1;
    }
    assert(documents@.take(i as int) == documents@);
    Ok(records)
}

} // verus!
