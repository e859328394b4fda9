//! From one placemark to at most one activity record.
//!
//! A placemark that lacks a piece, or names a category other than driving
//! and cycling, gives no record. A placemark that has its pieces but writes
//! its distance or one of its times badly is an error: the document is
//! corrupt, and nothing is dropped in silence.

use vstd::prelude::*;
use crate::activity::{ActivityKind, ActivityRecord, Distance, Instant};
use crate::decimal::{distance_reading, micrometres_reading, read_distance};
use crate::timestamp::{read_rfc3339, rfc3339_reading};
use crate::tree::{child_named, child_with_attribute, first_named, first_with_attribute, Element, Placemark};

verus! {

/// Why a placemark that has all its pieces still gives no record.
#[derive(Clone, Copy, Debug, PartialEq, Eq, Structural)]
pub enum ExtractError {
    /// The text of the distance is no decimal number, or writes a number
    /// that no distance holds.
    BadDistance,
    /// The text of the begin time is not an RFC 3339 date and time.
    BadBegin,
    /// The text of the end time is not an RFC 3339 date and time.
    BadEnd,
}

impl ExtractError {
    /// A short account of the error for a report.
    pub fn describe(&self) -> (text: &'static str)
        ensures
            text@ == (match *self {
                ExtractError::BadDistance => "Couldn't parse distance"@,
                ExtractError::BadBegin => "Couldn't parse begin time"@,
                ExtractError::BadEnd => "Couldn't parse end time"@,
            }),
    {
        match self {
            ExtractError::BadDistance => "Couldn't parse distance",
            ExtractError::BadBegin => "Couldn't parse begin time",
            ExtractError::BadEnd => "Couldn't parse end time",
        }
    }
}

/// The pieces of a placemark from which a record is made: the distance read,
/// the category and the two times still as text.
#[derive(Debug)]
pub struct Fields {
    /// The category label.
    pub category: String,
    /// The distance.
    pub distance: Distance,
    /// The text of the begin time.
    pub begin: String,
    /// The text of the end time.
    pub end: String,
}

/// `Fields` with its texts as sequences of characters.
pub struct FieldsView {
    /// The category label.
    pub category: Seq<char>,
    /// The distance.
    pub distance: Distance,
    /// The text of the begin time.
    pub begin: Seq<char>,
    /// The text of the end time.
    pub end: Seq<char>,
}

impl View for Fields {
    type V = FieldsView;

    open spec fn view(&self) -> FieldsView {
        FieldsView {
            category: self.category@,
            distance: self.distance,
            begin: self.begin@,
            end: self.end@,
        }
    }
}

/// The text of the first child of `parent` called `name`.
pub open spec fn child_text(parent: Element, name: Seq<char>) -> Option<Seq<char>> {
    match first_named(parent.children@, name) {
        Some(child) => match child.content {
            Some(text) => Some(text@),
            None => None,
        },
        None => None,
    }
}

/// The text of the `value` child of the first child of `holder` whose
/// attribute `name` is `key`.
pub open spec fn data_text(holder: Element, key: Seq<char>) -> Option<Seq<char>> {
    match first_with_attribute(holder.children@, "name"@, key) {
        Some(data) => child_text(data, "value"@),
        None => None,
    }
}

/// The pieces of `placemark`, looked up in this order: the `ExtendedData`
/// child, in it the category and then the distance, then the `TimeSpan`
/// child, in it `begin` and then `end`. The first piece that is absent ends
/// the search with `Ok(None)`; a distance that is present and badly written
/// ends it with an error, whatever comes after it.
pub open spec fn located(placemark: Placemark) -> Result<Option<FieldsView>, ExtractError> {
    match first_named(placemark.children@, "ExtendedData"@) {
        None => Ok(None),
        Some(extended) => match data_text(extended, "Category"@) {
            None => Ok(None),
            Some(category) => match data_text(extended, "Distance"@) {
                None => Ok(None),
                Some(distance_text) => match distance_reading(distance_text) {
                    None => Err(ExtractError::BadDistance),
                    Some(distance) => match first_named(placemark.children@, "TimeSpan"@) {
                        None => Ok(None),
                        Some(span) => match child_text(span, "begin"@) {
                            None => Ok(None),
                            Some(begin) => match child_text(span, "end"@) {
                                None => Ok(None),
                                Some(end) => Ok(
                                    Some(FieldsView { category, distance, begin, end }),
                                ),
                            },
                        },
                    },
                },
            },
        },
    }
}

/// The record made of `fields` once both times are read. A begin time that
/// was refused is reported before an end time that was; only then is the
/// category looked at, and one that names no kind gives no record.
pub open spec fn assembled(fields: FieldsView, start: Option<Instant>, end: Option<Instant>) -> Result<
    Option<ActivityRecord>,
    ExtractError,
> {
    match start {
        None => Err(ExtractError::BadBegin),
        Some(start) => match end {
            None => Err(ExtractError::BadEnd),
            Some(end) => match ActivityKind::of_category(fields.category) {
                Some(activity) => Ok(
                    Some(ActivityRecord { start, end, activity, distance: fields.distance }),
                ),
                None => Ok(None),
            },
        },
    }
}

/// What a placemark yields: its pieces located, its times read, its record
/// assembled.
pub open spec fn extraction(placemark: Placemark) -> Result<Option<ActivityRecord>, ExtractError> {
    match located(placemark) {
        Err(e) => Err(e),
        Ok(None) => Ok(None),
        Ok(Some(fields)) => assembled(
            fields,
            rfc3339_reading(fields.begin),
            rfc3339_reading(fields.end),
        ),
    }
}

/// Whether `placemark` writes its distance badly: it has an `ExtendedData`
/// child with a category and a distance, and the distance's text is not a
/// distance.
pub open spec fn distance_is_malformed(placemark: Placemark) -> bool {
    match first_named(placemark.children@, "ExtendedData"@) {
        Some(extended) => {
            &&& data_text(extended, "Category"@) is Some
            &&& data_text(extended, "Distance"@) matches Some(text)
            &&& distance_reading(text) is None
        },
        None => false,
    }
}

/// Whether `placemark` has all its pieces and writes its begin or its end
/// time badly.
pub open spec fn time_is_malformed(placemark: Placemark) -> bool {
    located(placemark) matches Ok(Some(fields)) && (rfc3339_reading(fields.begin) is None
        || rfc3339_reading(fields.end) is None)
}

/// Extraction fails exactly on a placemark that writes its distance or one
/// of its times badly.
pub proof fn law_errors_are_malformed_text(placemark: Placemark)
    ensures
        extraction(placemark) is Err <==> distance_is_malformed(placemark) || time_is_malformed(
            placemark,
        ),
        extraction(placemark) == Err::<Option<ActivityRecord>, ExtractError>(
            ExtractError::BadDistance,
        ) <==> distance_is_malformed(placemark),
{
}

/// A placemark without an `ExtendedData` child gives no record and no
/// error.
pub proof fn law_no_extended_data(placemark: Placemark)
    requires
        first_named(placemark.children@, "ExtendedData"@) is None,
    ensures
        extraction(placemark) == Ok::<Option<ActivityRecord>, ExtractError>(None),
{
}

/// A placemark without a `TimeSpan` child gives no record, and no error
/// unless its distance is badly written: the distance is read before the
/// `TimeSpan` is looked for.
pub proof fn law_no_time_span(placemark: Placemark)
    requires
        first_named(placemark.children@, "TimeSpan"@) is None,
        !distance_is_malformed(placemark),
    ensures
        extraction(placemark) == Ok::<Option<ActivityRecord>, ExtractError>(None),
{
}

/// A placemark whose category is absent or names neither driving nor cycling
/// gives no record, and no error unless its distance or one of its times is
/// badly written: the category is looked at last.
pub proof fn law_no_recognized_category(placemark: Placemark)
    requires
        match first_named(placemark.children@, "ExtendedData"@) {
            Some(extended) => match data_text(extended, "Category"@) {
                Some(category) => ActivityKind::of_category(category) is None,
                None => true,
            },
            None => true,
        },
        !distance_is_malformed(placemark),
        !time_is_malformed(placemark),
    ensures
        extraction(placemark) == Ok::<Option<ActivityRecord>, ExtractError>(None),
{
}

/// A placemark with all its pieces well written, whose category names a
/// kind, gives exactly the record of that kind, of the distance that the
/// text of the distance writes, and of those two instants.
pub proof fn law_valid_placemark(
    placemark: Placemark,
    extended: Element,
    span: Element,
    category: Seq<char>,
    distance_text: Seq<char>,
    begin: Seq<char>,
    end: Seq<char>,
    record: ActivityRecord,
)
    requires
        first_named(placemark.children@, "ExtendedData"@) == Some(extended),
        data_text(extended, "Category"@) == Some(category),
        data_text(extended, "Distance"@) == Some(distance_text),
        first_named(placemark.children@, "TimeSpan"@) == Some(span),
        child_text(span, "begin"@) == Some(begin),
        child_text(span, "end"@) == Some(end),
        ActivityKind::of_category(category) == Some(record.activity),
        micrometres_reading(distance_text) == Some(record.distance@),
        rfc3339_reading(begin) == Some(record.start),
        rfc3339_reading(end) == Some(record.end),
    ensures
        extraction(placemark) == Ok::<Option<ActivityRecord>, ExtractError>(Some(record)),
{
    record.distance.lemma_of_micrometres();
}

/// A placemark with a category whose distance is badly written is an error,
/// whatever else it holds: it is never dropped in silence.
pub proof fn law_malformed_distance_is_fatal(placemark: Placemark)
    requires
        distance_is_malformed(placemark),
    ensures
        extraction(placemark) == Err::<Option<ActivityRecord>, ExtractError>(
            ExtractError::BadDistance,
        ),
{
}


/// The text of the first child of `parent` called `name`.
pub fn text_of_child<'a>(parent: &'a Element, name: &str) -> (r: Option<&'a String>)
    ensures
        match r {
            Some(text) => child_text(*parent, name@) == Some(text@),
            None => child_text(*parent, name@) is None,
        },
{
    match child_named(&parent.children, name) {
        Some(child) => match &child.content {
            Some(text) => Some(text),
            None => None,
        },
        None => None,
    }
}

/// The text of the `value` child of the first child of `holder` whose
/// attribute `name` is `key`.
pub fn text_of_data<'a>(holder: &'a Element, key: &str) -> (r: Option<&'a String>)
    ensures
        match r {
            Some(text) => data_text(*holder, key@) == Some(text@),
            None => data_text(*holder, key@) is None,
        },
{
    match child_with_attribute(&holder.children, "name", key) {
        Some(data) => text_of_child(data, "value"),
        None => None,
    }
}

/// Looks up the pieces of `placemark` and reads its distance.
pub fn locate(placemark: &Placemark) -> (r: Result<Option<Fields>, ExtractError>)
    ensures
        match r {
            Ok(Some(fields)) => located(*placemark) == Ok::<Option<FieldsView>, ExtractError>(
                Some(fields@),
            ),
            Ok(None) => located(*placemark) == Ok::<Option<FieldsView>, ExtractError>(None),
            Err(e) => located(*placemark) == Err::<Option<FieldsView>, ExtractError>(e),
        },
{
    let extended = match child_named(&placemark.children, "ExtendedData") {
        Some(e) => e,
        None => { return Ok(None); },
    };
    let category = match text_of_data(extended, "Category") {
        Some(t) => t,
        None => { return Ok(None); },
    };
    let distance_text = match text_of_data(extended, "Distance") {
        Some(t) => t,
        None => { return Ok(None); },
    };
    let distance = match read_distance(distance_text.as_str()) {
        Some(d) => d,
        None => { return Err(ExtractError::BadDistance); },
    };
    let span = match child_named(&placemark.children, "TimeSpan") {
        Some(e) => e,
        None => { return Ok(None); },
    };
    let begin = match text_of_child(span, "begin") {
        Some(t) => t,
        None => { return Ok(None); },
    };
    let end = match text_of_child(span, "end") {
        Some(t) => t,
        None => { return Ok(None); },
    };
    Ok(Some(Fields { category: category.clone(), distance, begin: begin.clone(), end: end.clone() }))
}

impl ActivityRecord {
    /// Makes the record of `fields` from the two times as they were read,
    /// `None` standing for a text that was refused.
    pub fn from_fields(fields: &Fields, start: Option<Instant>, end: Option<Instant>) -> (r: Result<
        Option<ActivityRecord>,
        ExtractError,
    >)
        ensures
            r == assembled(fields@, start, end),
    {
        let start = match start {
            Some(s) => s,
            None => { return Err(ExtractError::BadBegin); },
        };
        let end = match end {
            Some(e) => e,
            None => { return Err(ExtractError::BadEnd); },
        };
        match ActivityKind::from_category(&fields.category) {
            Some(activity) => Ok(
                Some(ActivityRecord { start, end, activity, distance: fields.distance }),
            ),
            None => Ok(None),
        }
    }

    /// Draws the activity record out of a placemark: `Ok(None)` where the
    /// placemark is not a record of driving or cycling, an error where it
    /// has its pieces and one of them is badly written.
    pub fn try_from_placemark(placemark: &Placemark) -> (r: Result<
        Option<ActivityRecord>,
        ExtractError,
    >)
        ensures
            r == extraction(*placemark),
    {
        match locate(placemark) {
            Err(e) => Err(e),
            Ok(None) => Ok(None),
            Ok(Some(fields)) => {
                let start = read_rfc3339(fields.begin.as_str());
                let end = read_rfc3339(fields.end.as_str());
                ActivityRecord::from_fields(&fields, start, end)
            },
        }
    }
}

} // verus!
