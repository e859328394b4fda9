use bikebalance::activity::{ActivityKind, ActivityRecord, Distance, Instant};
use bikebalance::extract::ExtractError;
use bikebalance::frame::{summary, to_dataframe};
use bikebalance::sort::{assemble, sort_by_start};
use bikebalance::tree::{Document, Element, Placemark};
use bikebalance::unpack::{unpack, unpack_each};

fn leaf(name: &str, text: &str) -> Element {
    Element { name: name.to_string(), attrs: Vec::new(), content: Some(text.to_string()), children: Vec::new() }
}

fn data(key: &str, value: &str) -> Element {
    Element {
        name: "Data".to_string(),
        attrs: vec![("name".to_string(), key.to_string())],
        content: None,
        children: vec![leaf("value", value)],
    }
}

fn placemark(category: &str, distance: &str, begin: &str, end: &str) -> Document {
    let extended = Element {
        name: "ExtendedData".to_string(),
        attrs: Vec::new(),
        content: None,
        children: vec![data("Category", category), data("Distance", distance)],
    };
    let span = Element {
        name: "TimeSpan".to_string(),
        attrs: Vec::new(),
        content: None,
        children: vec![leaf("begin", begin), leaf("end", end)],
    };
    Document::Placemark(Placemark { children: vec![extended, span] })
}

fn at(hour: u32) -> String {
    format!("2021-06-01T{:02}:00:00Z", hour)
}

fn ride(distance: &str, hour: u32) -> Document {
    placemark("Cycling", distance, &at(hour), &at(hour + 1))
}

/// The distances in metres.
fn distances(records: &[ActivityRecord]) -> Vec<u64> {
    records.iter().map(|r| r.distance.micrometres() / 1_000_000).collect()
}

fn nested() -> Document {
    let third = Document::Container(vec![Document::Other, ride("3", 3)]);
    let second = Document::Container(vec![ride("2", 2), Document::Other, third]);
    Document::Wrapper(vec![Document::Container(vec![ride("1", 1), Document::Other, second])])
}

#[test]
fn three_nested_levels_give_three_records_in_document_order() {
    let got = unpack(&nested()).unwrap();
    assert_eq!(got.len(), 3);
    assert_eq!(distances(&got), vec![1, 2, 3]);
    assert_eq!(got[0].start, Instant { secs: 1622509200, nanos: 0, offset: 0 });
    assert_eq!(got[2].activity, ActivityKind::Cycling);
}

#[test]
fn records_come_depth_first() {
    let inner = Document::Container(vec![ride("2", 9), ride("3", 1)]);
    let doc = Document::Wrapper(vec![ride("1", 5), inner, ride("4", 2), Document::Container(Vec::new())]);
    assert_eq!(distances(&unpack(&doc).unwrap()), vec![1, 2, 3, 4]);
}

#[test]
fn other_elements_and_unknown_placemarks_are_passed_over() {
    assert_eq!(unpack(&Document::Other), Ok(Vec::new()));
    assert_eq!(unpack(&Document::Wrapper(Vec::new())), Ok(Vec::new()));
    assert_eq!(unpack(&Document::Container(vec![Document::Other, Document::Other])), Ok(Vec::new()));
    let walk = placemark("Walking", "10", &at(1), &at(2));
    assert_eq!(unpack(&walk), Ok(Vec::new()));
    let bare = Document::Placemark(Placemark { children: Vec::new() });
    assert_eq!(unpack(&Document::Wrapper(vec![bare, ride("8", 1)])).map(|r| distances(&r)), Ok(vec![8]));
}

#[test]
fn one_placemark_gives_one_record() {
    let got = unpack(&placemark("Driving", "4851", "2021-03-04T17:45:00+01:00", "2021-03-04T18:15:30+01:00"));
    let want = ActivityRecord {
        start: Instant { secs: 1614876300, nanos: 0, offset: 3600 },
        end: Instant { secs: 1614878130, nanos: 0, offset: 3600 },
        activity: ActivityKind::Driving,
        distance: Distance::from_metres(4851).unwrap(),
    };
    assert_eq!(got, Ok(vec![want]));
}

#[test]
fn a_badly_written_placemark_fails_the_whole_document() {
    let deep = Document::Container(vec![Document::Container(vec![placemark("Driving", "abc", &at(1), &at(2))])]);
    let doc = Document::Wrapper(vec![ride("1", 1), deep, ride("2", 2)]);
    assert_eq!(unpack(&doc), Err(ExtractError::BadDistance));
    assert_eq!(unpack_each(&vec![ride("1", 1), doc]), Err(ExtractError::BadDistance));
}

#[test]
fn the_first_failure_in_document_order_is_reported() {
    let bad_end = placemark("Driving", "1", &at(1), "soon");
    let bad_distance = placemark("Driving", "far", &at(1), &at(2));
    let bad_begin = placemark("Cycling", "1", "once", &at(2));
    let doc = Document::Wrapper(vec![
        ride("1", 1),
        Document::Container(vec![bad_end]),
        bad_distance,
        bad_begin,
    ]);
    assert_eq!(unpack(&doc), Err(ExtractError::BadEnd));
    let docs = vec![
        Document::Container(vec![placemark("Cycling", "1", "once", &at(2))]),
        placemark("Driving", "far", &at(1), &at(2)),
    ];
    assert_eq!(unpack_each(&docs), Err(ExtractError::BadBegin));
}

#[test]
fn unpacking_twice_gives_the_same() {
    let doc = nested();
    let first = unpack(&doc);
    let second = unpack(&doc);
    assert_eq!(first, second);
    assert_eq!(unpack(&nested()), first);
    let bad = Document::Wrapper(vec![placemark("Driving", "x", &at(1), &at(2))]);
    assert_eq!(unpack(&bad), unpack(&bad));
}

#[test]
fn several_documents_are_joined_in_order() {
    let docs = vec![nested(), Document::Other, Document::Wrapper(vec![ride("9", 0)])];
    assert_eq!(distances(&unpack_each(&docs).unwrap()), vec![1, 2, 3, 9]);
    assert_eq!(unpack_each(&Vec::new()), Ok(Vec::new()));
}

fn record(metres: u64, secs: i64, nanos: u32, offset: i32) -> ActivityRecord {
    let start = Instant { secs, nanos, offset };
    let distance = Distance::from_metres(metres).unwrap();
    ActivityRecord { start, end: start, activity: ActivityKind::Driving, distance }
}

#[test]
fn sorting_orders_by_start() {
    let got = sort_by_start(vec![record(1, 30, 0, 0), record(2, 10, 0, 0), record(3, 20, 0, 0), record(4, -5, 0, 0)]);
    assert_eq!(distances(&got), vec![4, 2, 3, 1]);
    assert_eq!(sort_by_start(Vec::new()), Vec::new());
    assert_eq!(distances(&sort_by_start(vec![record(7, 1, 0, 0)])), vec![7]);
}

#[test]
fn sorting_looks_at_nanoseconds_and_not_at_offsets() {
    let got = sort_by_start(vec![
        record(1, 10, 500, -3600),
        record(2, 10, 499, 3600),
        record(3, 9, 999_999_999, 0),
        record(4, 10, 0, 86_399),
    ]);
    assert_eq!(distances(&got), vec![3, 4, 2, 1]);
}

#[test]
fn sorting_keeps_the_order_of_equal_starts() {
    let got = sort_by_start(vec![
        record(1, 10, 0, 0),
        record(2, 5, 0, 0),
        record(3, 10, 0, 3600),
        record(4, 5, 0, 0),
        record(5, 10, 0, 0),
    ]);
    assert_eq!(distances(&got), vec![2, 4, 1, 3, 5]);
}

#[test]
fn sorting_leaves_sorted_records_as_they_are() {
    let sorted = vec![record(1, 1, 0, 0), record(2, 1, 0, 0), record(3, 2, 0, 0), record(4, 2, 1, 0)];
    assert_eq!(sort_by_start(sorted.clone()), sorted);
}

#[test]
fn assembly_is_sorted_for_every_order_of_the_documents() {
    let docs = || {
        vec![
            Document::Wrapper(vec![ride("30", 3), ride("10", 1)]),
            Document::Wrapper(vec![Document::Container(vec![ride("40", 4)]), Document::Other]),
            Document::Wrapper(vec![ride("20", 2), ride("50", 5)]),
        ]
    };
    let orders: [[usize; 3]; 6] = [[0, 1, 2], [0, 2, 1], [1, 0, 2], [1, 2, 0], [2, 0, 1], [2, 1, 0]];
    for order in orders {
        let mut all: Vec<Option<Document>> = docs().into_iter().map(Some).collect();
        let permuted: Vec<Document> = order.iter().map(|&i| all[i].take().unwrap()).collect();
        let got = assemble(&permuted).unwrap();
        assert_eq!(distances(&got), vec![10, 20, 30, 40, 50], "order {:?}", order);
        assert!(got.windows(2).all(|w| w[0].start.is_at_or_before(&w[1].start)));
    }
}

#[test]
fn assembly_fails_where_a_document_fails() {
    let docs = vec![
        Document::Wrapper(vec![ride("30", 3)]),
        Document::Wrapper(vec![placemark("Cycling", "1", &at(1), "later")]),
    ];
    assert_eq!(assemble(&docs), Err(ExtractError::BadEnd));
    assert_eq!(assemble(&Vec::new()), Ok(Vec::new()));
}

#[test]
fn distances_written_in_metres_reach_the_table_exactly() {
    let docs = vec![
        Document::Wrapper(vec![placemark("Driving", "20", &at(5), &at(6))]),
        Document::Wrapper(vec![placemark("Driving", "100", &at(1), &at(2)), placemark("Cycling", "30.5", &at(3), &at(4))]),
    ];
    let df = to_dataframe(&assemble(&docs).unwrap());
    let debts: Vec<i128> = (0..df.len()).map(|i| df.row(i).unwrap().debt).collect();
    assert_eq!(debts, vec![100_000_000, 69_500_000, 89_500_000]);
    let s = summary(&df);
    assert_eq!(s.get(ActivityKind::Driving), Some(120_000_000));
    assert_eq!(s.get(ActivityKind::Cycling), Some(30_500_000));
    assert_eq!(s.debt(), 89_500_000);
}
