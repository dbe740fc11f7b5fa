use stream_join::nexmark::{
    ConnectorError, ConnectorStateV2, EventType, NexmarkSplit, NexmarkSplitEnumerator,
    NexmarkSplitReader, Properties, SplitImpl,
};

fn properties(entries: &[(&str, &str)]) -> Properties {
    Properties::new(entries.iter().map(|(k, v)| (k.to_string(), v.to_string())).collect())
}

#[test]
fn the_stream_is_cut_into_the_splits_named() {
    let mut enumerator =
        NexmarkSplitEnumerator::new(&properties(&[("nexmark.split.num", "3")])).unwrap();
    let splits = enumerator.list_splits();
    assert_eq!(splits.len(), 3);
    for (i, split) in splits.iter().enumerate() {
        assert_eq!(
            *split,
            NexmarkSplit { split_num: 3, split_index: i as i32, start_offset: None, stop_offset: None }
        );
    }
}

#[test]
fn one_split_is_the_default() {
    let mut enumerator = NexmarkSplitEnumerator::new(&properties(&[("other", "3")])).unwrap();
    assert_eq!(enumerator.list_splits().len(), 1);
    let mut none = NexmarkSplitEnumerator::from_split_num(Some(-2)).unwrap();
    assert!(none.list_splits().is_empty());
    let mut zero = NexmarkSplitEnumerator::new(&properties(&[("nexmark.split.num", "0")])).unwrap();
    assert!(zero.list_splits().is_empty());
}

#[test]
fn a_number_of_splits_that_is_none_is_refused() {
    assert_eq!(
        NexmarkSplitEnumerator::new(&properties(&[("nexmark.split.num", "three")])).unwrap_err(),
        ConnectorError::InvalidNumber
    );
    assert_eq!(
        NexmarkSplitEnumerator::from_split_num(None).unwrap_err(),
        ConnectorError::InvalidNumber
    );
}

#[test]
fn the_first_entry_of_a_name_counts() {
    let p = properties(&[("a", "1"), ("b", "2"), ("a", "3")]);
    assert_eq!(p.get_nexmark(&"a".to_string()).unwrap(), "1");
    assert_eq!(p.get_nexmark(&"b".to_string()).unwrap(), "2");
    assert_eq!(p.get_nexmark(&"c".to_string()).unwrap_err(), ConnectorError::MissingProperty);
}

#[test]
fn a_reader_starts_from_the_first_split_of_the_source() {
    let state = ConnectorStateV2::Splits(vec![
        SplitImpl::Other("kafka-0".to_string()),
        SplitImpl::Nexmark(NexmarkSplit {
            split_num: 4,
            split_index: 2,
            start_offset: Some(17),
            stop_offset: None,
        }),
        SplitImpl::Nexmark(NexmarkSplit {
            split_num: 4,
            split_index: 3,
            start_offset: None,
            stop_offset: Some(5),
        }),
    ]);
    let p = properties(&[("nexmark.table.type", "Bid"), ("nexmark.min.event.gap.in.ns", "250")]);
    let reader = NexmarkSplitReader::new(&p, &state, 1234).unwrap();
    assert_eq!(reader.generator.event_type, EventType::Bid);
    assert!(!reader.generator.use_real_time);
    assert_eq!(reader.generator.min_event_gap_in_ns, 250);
    assert_eq!(reader.generator.wall_clock_base_time, 1234);
    assert_eq!(reader.generator.split_num, 4);
    assert_eq!(reader.generator.split_index, 2);
    assert_eq!(reader.generator.events_so_far, 17);
    assert_eq!(reader.generator.events_count_max, 0);
    assert_eq!(reader.assigned_split.unwrap().split_index, 2);
}

#[test]
fn a_reader_without_splits_starts_from_nothing() {
    let p = properties(&[("nexmark.table.type", "Person")]);
    let reader = NexmarkSplitReader::new(&p, &ConnectorStateV2::Unassigned, 0).unwrap();
    assert_eq!(reader.generator.event_type, EventType::Person);
    // the gap that is used where none is named
    assert_eq!(reader.generator.min_event_gap_in_ns, 100000);
    assert_eq!(
        reader.assigned_split,
        Some(NexmarkSplit { split_num: 0, split_index: 0, start_offset: None, stop_offset: None })
    );
    let p = properties(&[("nexmark.table.type", "Auction"), ("nexmark.use.real.time", "true")]);
    let reader = NexmarkSplitReader::new(&p, &ConnectorStateV2::Splits(vec![]), 0).unwrap();
    assert_eq!(reader.generator.event_type, EventType::Auction);
    assert!(reader.generator.use_real_time);
    // in real time there is no gap, whatever the properties name
    assert_eq!(reader.generator.min_event_gap_in_ns, 0);
}

#[test]
fn properties_that_are_not_what_they_have_to_be_are_refused() {
    let none = ConnectorStateV2::Unassigned;
    assert_eq!(
        NexmarkSplitReader::new(&properties(&[]), &none, 0).unwrap_err(),
        ConnectorError::MissingProperty
    );
    assert_eq!(
        NexmarkSplitReader::new(&properties(&[("nexmark.table.type", "bid")]), &none, 0).unwrap_err(),
        ConnectorError::UnknownTableType
    );
    assert_eq!(
        NexmarkSplitReader::new(
            &properties(&[("nexmark.table.type", "Bid"), ("nexmark.use.real.time", "yes")]),
            &none,
            0
        )
        .unwrap_err(),
        ConnectorError::InvalidFlag
    );
    assert_eq!(
        NexmarkSplitReader::new(
            &properties(&[("nexmark.table.type", "Bid"), ("nexmark.min.event.gap.in.ns", "-1")]),
            &none,
            0
        )
        .unwrap_err(),
        ConnectorError::InvalidNumber
    );
    // in real time the gap is not read
    assert!(NexmarkSplitReader::new(
        &properties(&[
            ("nexmark.table.type", "Bid"),
            ("nexmark.use.real.time", "true"),
            ("nexmark.min.event.gap.in.ns", "-1")
        ]),
        &none,
        0
    )
    .is_ok());
}
