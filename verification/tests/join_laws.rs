use std::collections::{BTreeMap, BTreeSet};

use stream_join::chunk::{Column, StreamChunk};
use stream_join::executor::{ExecutorInfo, Message};
use stream_join::hash_join::{HashJoinExecutor, JoinParams, JoinType, SideType};
use stream_join::storage::Keyspace;
use stream_join::types::{DataType, Datum, Field, Op, ScalarImpl, Schema};

type TestRow = (Option<i64>, i64);

fn executor(join_type: JoinType) -> HashJoinExecutor {
    let info = |name: &str| ExecutorInfo {
        schema: Schema {
            fields: vec![Field { data_type: DataType::Int64 }, Field { data_type: DataType::Int64 }],
        },
        pk_indices: vec![0, 1],
        identity: name.to_string(),
    };
    HashJoinExecutor::new(
        join_type,
        info("l"),
        info("r"),
        JoinParams::new(vec![0]),
        JoinParams::new(vec![0]),
        vec![0, 1, 2, 3],
        Keyspace::executor_root(7),
    )
    .unwrap()
}

fn one_row_chunk(op: Op, row: TestRow) -> StreamChunk {
    StreamChunk {
        ops: vec![op],
        columns: vec![
            Column::new(vec![row.0.map(ScalarImpl::Int64)]),
            Column::new(vec![Some(ScalarImpl::Int64(row.1))]),
        ],
        visibility: None,
    }
}

fn apply(join: &mut HashJoinExecutor, side: SideType, op: Op, row: TestRow) -> Vec<(Op, Vec<Datum>)> {
    let out = join.next(side, Ok(Message::Chunk(one_row_chunk(op, row)))).unwrap().unwrap();
    assert!(out.writes.is_empty());
    match out.message {
        Message::Chunk(c) => {
            assert_eq!(c.columns.len(), 4);
            (0..c.ops.len())
                .map(|i| (c.ops[i], c.columns.iter().map(|col| col.data[i]).collect()))
                .collect()
        }
        Message::Barrier(_) => unreachable!(),
    }
}

fn count(counts: &mut BTreeMap<Vec<Option<i64>>, i64>, out: &[(Op, Vec<Datum>)]) {
    for (op, row) in out {
        let key: Vec<Option<i64>> = row
            .iter()
            .map(|d| match d {
                Some(ScalarImpl::Int64(v)) => Some(*v),
                None => None,
                other => panic!("not an int64: {:?}", other),
            })
            .collect();
        let sign = match op {
            Op::Insert | Op::UpdateInsert => 1,
            Op::Delete | Op::UpdateDelete => -1,
        };
        *counts.entry(key).or_insert(0) += sign;
    }
    counts.retain(|_, n| *n != 0);
}

fn expected_join(
    join_type: JoinType,
    left: &BTreeSet<TestRow>,
    right: &BTreeSet<TestRow>,
) -> BTreeMap<Vec<Option<i64>>, i64> {
    let mut want = BTreeMap::new();
    let keep_left = matches!(join_type, JoinType::LeftOuter | JoinType::FullOuter);
    let keep_right = matches!(join_type, JoinType::RightOuter | JoinType::FullOuter);
    let matches = |a: &TestRow, b: &TestRow| a.0.is_some() && a.0 == b.0;
    for l in left {
        let mut matched = false;
        for r in right {
            if matches(l, r) {
                matched = true;
                *want.entry(vec![l.0, Some(l.1), r.0, Some(r.1)]).or_insert(0) += 1;
            }
        }
        if !matched && keep_left {
            *want.entry(vec![l.0, Some(l.1), None, None]).or_insert(0) += 1;
        }
    }
    for r in right {
        if keep_right && !left.iter().any(|l| matches(l, r)) {
            *want.entry(vec![None, None, r.0, Some(r.1)]).or_insert(0) += 1;
        }
    }
    want
}

/// A small generator of numbers, the same on every run.
struct Lcg(u64);

impl Lcg {
    fn next(&mut self, bound: u64) -> u64 {
        self.0 = self.0.wrapping_mul(6364136223846793005).wrapping_add(1442695040888963407);
        (self.0 >> 33) % bound
    }
}

/// After every change the output taken together is the join of what the two
/// sides hold, for each kind of join, keys with NULL included.
fn output_is_join(join_type: JoinType, seed: u64) {
    let mut join = executor(join_type);
    let mut rng = Lcg(seed);
    let mut held: [BTreeSet<TestRow>; 2] = [BTreeSet::new(), BTreeSet::new()];
    // the keys that a side has met
    let mut met: [BTreeSet<Option<i64>>; 2] = [BTreeSet::new(), BTreeSet::new()];
    let mut counts = BTreeMap::new();
    for _ in 0..400 {
        let s = rng.next(2) as usize;
        let side = if s == 0 { SideType::Left } else { SideType::Right };
        let key = match rng.next(5) {
            4 => None,
            k => Some(k as i64),
        };
        let row: TestRow = (key, rng.next(4) as i64);
        let replaces = matches!(
            (join_type, side),
            (JoinType::FullOuter, _)
                | (JoinType::LeftOuter, SideType::Right)
                | (JoinType::RightOuter, SideType::Left)
        );
        let op = if held[s].contains(&row) {
            if rng.next(2) == 0 { Op::Delete } else { Op::UpdateDelete }
        } else {
            let emptied = met[s].contains(&key) && !held[s].iter().any(|r| r.0 == key);
            let other_has = key.is_some() && held[1 - s].iter().any(|r| r.0 == key);
            if replaces && emptied && other_has {
                // the padded rows are replaced only when a side meets a key
                // for the first time: such an insert is left out
                continue;
            }
            if rng.next(2) == 0 { Op::Insert } else { Op::UpdateInsert }
        };
        let out = apply(&mut join, side, op, row);
        count(&mut counts, &out);
        match op {
            Op::Insert | Op::UpdateInsert => {
                held[s].insert(row);
                met[s].insert(key);
            }
            Op::Delete | Op::UpdateDelete => {
                held[s].remove(&row);
            }
        }
        assert_eq!(counts, expected_join(join_type, &held[0], &held[1]));
    }
}

#[test]
fn inner_join_output_is_the_join() {
    for seed in 0..5 {
        output_is_join(JoinType::Inner, seed);
    }
}

#[test]
fn left_outer_join_output_is_the_join() {
    for seed in 0..5 {
        output_is_join(JoinType::LeftOuter, 100 + seed);
    }
}

#[test]
fn right_outer_join_output_is_the_join() {
    for seed in 0..5 {
        output_is_join(JoinType::RightOuter, 200 + seed);
    }
}

#[test]
fn full_outer_join_output_is_the_join() {
    for seed in 0..5 {
        output_is_join(JoinType::FullOuter, 300 + seed);
    }
}

fn i64d(v: i64) -> Datum {
    Some(ScalarImpl::Int64(v))
}

#[test]
fn first_match_replaces_the_padded_row() {
    let mut join = executor(JoinType::LeftOuter);
    assert_eq!(
        apply(&mut join, SideType::Left, Op::Insert, (Some(1), 4)),
        vec![(Op::Insert, vec![i64d(1), i64d(4), None, None])]
    );
    assert_eq!(
        apply(&mut join, SideType::Right, Op::Insert, (Some(1), 7)),
        vec![
            (Op::UpdateDelete, vec![i64d(1), i64d(4), None, None]),
            (Op::UpdateInsert, vec![i64d(1), i64d(4), i64d(1), i64d(7)]),
        ]
    );
    // the second row of the key is joined as any row
    assert_eq!(
        apply(&mut join, SideType::Right, Op::Insert, (Some(1), 8)),
        vec![(Op::Insert, vec![i64d(1), i64d(4), i64d(1), i64d(8)])]
    );
    assert_eq!(
        apply(&mut join, SideType::Right, Op::Delete, (Some(1), 8)),
        vec![(Op::Delete, vec![i64d(1), i64d(4), i64d(1), i64d(8)])]
    );
    // the removal of the last row of the key brings the padded row back
    assert_eq!(
        apply(&mut join, SideType::Right, Op::Delete, (Some(1), 7)),
        vec![
            (Op::UpdateDelete, vec![i64d(1), i64d(4), i64d(1), i64d(7)]),
            (Op::UpdateInsert, vec![i64d(1), i64d(4), None, None]),
        ]
    );
}

#[test]
fn insert_under_an_emptied_key_is_joined_without_replacement() {
    let mut join = executor(JoinType::LeftOuter);
    apply(&mut join, SideType::Left, Op::Insert, (Some(1), 4));
    apply(&mut join, SideType::Right, Op::Insert, (Some(1), 7));
    apply(&mut join, SideType::Right, Op::Delete, (Some(1), 7));
    // the right side has met the key 1 before: the padded row stays
    assert_eq!(
        apply(&mut join, SideType::Right, Op::Insert, (Some(1), 8)),
        vec![(Op::Insert, vec![i64d(1), i64d(4), i64d(1), i64d(8)])]
    );
}

#[test]
fn reinsert_holds_the_row_once() {
    let mut join = executor(JoinType::Inner);
    assert!(apply(&mut join, SideType::Left, Op::Insert, (Some(1), 4)).is_empty());
    assert!(apply(&mut join, SideType::Left, Op::Insert, (Some(1), 4)).is_empty());
    // one row is held, so one row is joined
    assert_eq!(
        apply(&mut join, SideType::Right, Op::Insert, (Some(1), 7)),
        vec![(Op::Insert, vec![i64d(1), i64d(4), i64d(1), i64d(7)])]
    );
    // the second insert of a row that has matches puts out the joined row again
    assert_eq!(
        apply(&mut join, SideType::Left, Op::Insert, (Some(1), 4)),
        vec![(Op::Insert, vec![i64d(1), i64d(4), i64d(1), i64d(7)])]
    );
    assert_eq!(
        apply(&mut join, SideType::Left, Op::Delete, (Some(1), 4)),
        vec![(Op::Delete, vec![i64d(1), i64d(4), i64d(1), i64d(7)])]
    );
    // the row is gone: nothing is joined any more
    assert!(apply(&mut join, SideType::Right, Op::Insert, (Some(1), 9)).is_empty());
}

#[test]
fn null_keys_never_match() {
    let mut join = executor(JoinType::FullOuter);
    assert_eq!(
        apply(&mut join, SideType::Left, Op::Insert, (None, 4)),
        vec![(Op::Insert, vec![None, i64d(4), None, None])]
    );
    assert_eq!(
        apply(&mut join, SideType::Right, Op::Insert, (None, 4)),
        vec![(Op::Insert, vec![None, None, None, i64d(4)])]
    );
    assert_eq!(
        apply(&mut join, SideType::Left, Op::Delete, (None, 4)),
        vec![(Op::Delete, vec![None, i64d(4), None, None])]
    );
}

#[test]
fn delete_of_a_row_that_is_not_held_changes_nothing() {
    let mut join = executor(JoinType::LeftOuter);
    apply(&mut join, SideType::Left, Op::Insert, (Some(1), 4));
    // the right side holds no row: nothing is replaced, under outer-null
    // either, and the change is joined as any change
    assert_eq!(
        apply(&mut join, SideType::Right, Op::Delete, (Some(1), 7)),
        vec![(Op::Delete, vec![i64d(1), i64d(4), i64d(1), i64d(7)])]
    );
    assert_eq!(
        apply(&mut join, SideType::Right, Op::Insert, (Some(1), 7)),
        vec![
            (Op::UpdateDelete, vec![i64d(1), i64d(4), None, None]),
            (Op::UpdateInsert, vec![i64d(1), i64d(4), i64d(1), i64d(7)]),
        ]
    );
}

#[test]
fn hidden_rows_are_dropped() {
    let mut join = executor(JoinType::LeftOuter);
    let chunk = StreamChunk {
        ops: vec![Op::Insert, Op::Insert, Op::Insert],
        columns: vec![
            Column::new(vec![i64d(1), i64d(2), i64d(3)]),
            Column::new(vec![i64d(4), i64d(5), i64d(6)]),
        ],
        visibility: Some(vec![true, false, true]),
    };
    let out = join.next(SideType::Left, Ok(Message::Chunk(chunk))).unwrap().unwrap();
    match out.message {
        Message::Chunk(c) => {
            assert_eq!(c.ops, vec![Op::Insert, Op::Insert]);
            assert_eq!(c.columns[0].data, vec![i64d(1), i64d(3)]);
            assert_eq!(c.columns[1].data, vec![i64d(4), i64d(6)]);
            assert_eq!(c.columns[2].data, vec![None, None]);
        }
        Message::Barrier(_) => unreachable!(),
    }
}
