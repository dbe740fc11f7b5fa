use stream_join::bytes::{bytes_equal, bytes_less, starts_with};
use stream_join::codec::{
    deserialize_cell, read_be32, read_be64, serialize_cell, serialize_cell_idx, serialize_pk,
    serialize_row, serialize_u64, OrderType,
};
use stream_join::error::StreamError;
use stream_join::types::{Datum, Row, ScalarImpl};

#[test]
fn cell_index_is_four_bytes_big_endian() {
    assert_eq!(serialize_cell_idx(0), vec![0, 0, 0, 0]);
    assert_eq!(serialize_cell_idx(1), vec![0, 0, 0, 1]);
    assert_eq!(serialize_cell_idx(0x01020304), vec![1, 2, 3, 4]);
    assert_eq!(serialize_cell_idx(u32::MAX), vec![255, 255, 255, 255]);
    assert_eq!(read_be32(&vec![9, 1, 2, 3, 4], 1), 0x01020304);
    assert_eq!(serialize_u64(0x0102030405060708), vec![1, 2, 3, 4, 5, 6, 7, 8]);
    assert_eq!(read_be64(&vec![1, 2, 3, 4, 5, 6, 7, 8], 0), 0x0102030405060708);
}

#[test]
fn cells_are_a_tag_and_the_value_moved_above_zero() {
    assert_eq!(serialize_cell(&None), vec![0]);
    assert_eq!(serialize_cell(&Some(ScalarImpl::Bool(false))), vec![1, 0]);
    assert_eq!(serialize_cell(&Some(ScalarImpl::Bool(true))), vec![1, 1]);
    assert_eq!(serialize_cell(&Some(ScalarImpl::Int16(0))), vec![2, 0x80, 0]);
    assert_eq!(serialize_cell(&Some(ScalarImpl::Int16(i16::MIN))), vec![2, 0, 0]);
    assert_eq!(serialize_cell(&Some(ScalarImpl::Int16(i16::MAX))), vec![2, 0xff, 0xff]);
    assert_eq!(serialize_cell(&Some(ScalarImpl::Int32(-1))), vec![3, 0x7f, 0xff, 0xff, 0xff]);
    assert_eq!(serialize_cell(&Some(ScalarImpl::Int32(1))), vec![3, 0x80, 0, 0, 1]);
    assert_eq!(
        serialize_cell(&Some(ScalarImpl::Int64(258))),
        vec![4, 0x80, 0, 0, 0, 0, 0, 1, 2]
    );
    assert_eq!(
        serialize_cell(&Some(ScalarImpl::Int64(i64::MIN))),
        vec![4, 0, 0, 0, 0, 0, 0, 0, 0]
    );
}

#[test]
fn cells_are_read_back() {
    let values: Vec<Datum> = vec![
        None,
        Some(ScalarImpl::Bool(true)),
        Some(ScalarImpl::Bool(false)),
        Some(ScalarImpl::Int16(-7)),
        Some(ScalarImpl::Int16(i16::MAX)),
        Some(ScalarImpl::Int32(i32::MIN)),
        Some(ScalarImpl::Int32(123456)),
        Some(ScalarImpl::Int64(i64::MAX)),
        Some(ScalarImpl::Int64(-1)),
    ];
    for v in values {
        assert_eq!(deserialize_cell(&serialize_cell(&v)), Some(v));
    }
}

#[test]
fn what_is_no_cell_is_refused() {
    assert_eq!(deserialize_cell(&vec![]), None);
    assert_eq!(deserialize_cell(&vec![0, 0]), None);
    assert_eq!(deserialize_cell(&vec![1]), None);
    assert_eq!(deserialize_cell(&vec![1, 2]), None);
    assert_eq!(deserialize_cell(&vec![2, 0]), None);
    assert_eq!(deserialize_cell(&vec![3, 0, 0, 0, 0, 0]), None);
    assert_eq!(deserialize_cell(&vec![4, 0, 0, 0]), None);
    assert_eq!(deserialize_cell(&vec![5, 0]), None);
}

#[test]
fn rows_are_their_values_one_after_the_other() {
    let row = Row(vec![Some(ScalarImpl::Int16(1)), None, Some(ScalarImpl::Bool(true))]);
    assert_eq!(serialize_row(&row), vec![2, 0x80, 1, 0, 1, 1]);
    assert_eq!(serialize_row(&Row(vec![])), Vec::<u8>::new());
}

#[test]
fn byte_order_is_value_order() {
    let values: Vec<i64> = vec![i64::MIN, -300, -1, 0, 1, 255, 256, 70000, i64::MAX];
    for a in &values {
        for b in &values {
            let ea = serialize_cell(&Some(ScalarImpl::Int64(*a)));
            let eb = serialize_cell(&Some(ScalarImpl::Int64(*b)));
            assert_eq!(bytes_less(&ea, &eb), a < b);
            assert_eq!(bytes_equal(&ea, &eb), a == b);
            let asc = vec![OrderType::Ascending];
            let desc = vec![OrderType::Descending];
            let ra = Row(vec![Some(ScalarImpl::Int64(*a))]);
            let rb = Row(vec![Some(ScalarImpl::Int64(*b))]);
            assert_eq!(
                bytes_less(&serialize_pk(&ra, &asc).unwrap(), &serialize_pk(&rb, &asc).unwrap()),
                a < b
            );
            assert_eq!(
                bytes_less(&serialize_pk(&ra, &desc).unwrap(), &serialize_pk(&rb, &desc).unwrap()),
                a > b
            );
        }
    }
    // NULL comes first
    assert!(bytes_less(&serialize_cell(&None), &serialize_cell(&Some(ScalarImpl::Int64(i64::MIN)))));
}

#[test]
fn sort_keys_follow_their_directions() {
    let pk = Row(vec![Some(ScalarImpl::Int16(1)), Some(ScalarImpl::Bool(true))]);
    assert_eq!(
        serialize_pk(&pk, &vec![OrderType::Ascending, OrderType::Descending]).unwrap(),
        vec![2, 0x80, 1, 0xfe, 0xfe]
    );
    assert_eq!(
        serialize_pk(&pk, &vec![OrderType::Ascending, OrderType::Ascending]).unwrap(),
        serialize_row(&pk)
    );
    assert_eq!(serialize_pk(&pk, &vec![OrderType::Ascending]), Err(StreamError::WidthMismatch));
}

#[test]
fn byte_strings_are_ordered_as_in_a_dictionary() {
    assert!(bytes_less(&vec![], &vec![0]));
    assert!(!bytes_less(&vec![], &vec![]));
    assert!(bytes_less(&vec![1, 2], &vec![1, 2, 0]));
    assert!(bytes_less(&vec![1, 2, 9], &vec![1, 3]));
    assert!(!bytes_less(&vec![2], &vec![1, 9, 9]));
    assert!(starts_with(&vec![1, 2, 3], &vec![1, 2]));
    assert!(starts_with(&vec![1, 2, 3], &vec![]));
    assert!(!starts_with(&vec![1, 2], &vec![1, 2, 3]));
    assert!(!starts_with(&vec![1, 2, 3], &vec![2]));
}
