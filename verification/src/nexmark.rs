//! The source of synthetic auction events: how it is split, and what a reader
//! of one split starts from.

use vstd::prelude::*;

verus! {

/// Why a connector refused its properties.
#[derive(Clone, Copy, Debug, PartialEq, Eq, Structural)]
pub enum ConnectorError {
    /// A property that has to be there is not.
    MissingProperty,
    /// A property that has to be a number is none.
    InvalidNumber,
    /// A property that has to be `true` or `false` is neither.
    InvalidFlag,
    /// The table type is none of `Person`, `Auction` and `Bid`.
    UnknownTableType,
}

/// The properties of a connector: values under names. Where a name is given
/// twice, the first entry counts.
#[derive(Debug)]
pub struct Properties {
    pub entries: Vec<(String, String)>,
}

/// The value under `key`, if there is one.
pub open spec fn property(entries: Seq<(String, String)>, key: Seq<char>) -> Option<String>
    decreases entries.len(),
{
    if entries.len() == 0 {
        None
    } else if entries[0].0@ == key {
        Some(entries[0].1)
    } else {
        property(entries.subrange(1, entries.len() as int), key)
    }
}

impl Properties {
    pub fn new(entries: Vec<(String, String)>) -> (p: Self)
        ensures
            p.entries@ == entries@,
    {
        Properties { entries }
    }

    /// The value of the property `key`.
    pub fn get_nexmark(&self, key: &String) -> (r: Result<&String, ConnectorError>)
        ensures
            match r {
                Ok(v) => property(self.entries@, key@) == Some(*v),
                Err(e) => property(self.entries@, key@).is_none() && e
                    == ConnectorError::MissingProperty,
            },
    {
        let n = self.entries.len();
        let mut i: usize = 0;
        assert(self.entries@.subrange(0, n as int) == self.entries@);
        while i < n
            invariant
                i <= n,
                n == self.entries@.len(),
                property(self.entries@, key@) == property(
                    self.entries@.subrange(i as int, n as int),
                    key@,
                ),
            decreases n - i,
        {
            let ghost rest = self.entries@.subrange(i as int, n as int);
            assert(rest[0] == self.entries@[i as int]);
            assert(rest.subrange(1, rest.len() as int) =~= self.entries@.subrange(i + 1, n as int));
            if self.entries[i].0 == *key {
                return Ok(&self.entries[i].1);
            }
            i += 1;
        }
        assert(self.entries@.subrange(n as int, n as int).len() == 0);
        Err(ConnectorError::MissingProperty)
    }
}

/// What `str::parse::<i32>` makes of a text: the number that it is the
/// decimal writing of, if it is one.
pub uninterp spec fn parsed_i32(text: Seq<char>) -> Option<i32>;

/// What `str::parse::<u64>` makes of a text.
pub uninterp spec fn parsed_u64(text: Seq<char>) -> Option<u64>;

/// `str::parse::<i32>`: the number that the text is the decimal writing of.
#[verifier::external_body]
fn parse_i32(text: &String) -> (r: Option<i32>)
    ensures
        r == parsed_i32(text@),
{
    text.parse::<i32>().ok()
}

/// `str::parse::<u64>`: the number that the text is the decimal writing of.
#[verifier::external_body]
fn parse_u64(text: &String) -> (r: Option<u64>)
    ensures
        r == parsed_u64(text@),
{
    text.parse::<u64>().ok()
}

/// One part of the stream of events.
#[derive(Clone, Copy, Debug, PartialEq, Eq, Structural)]
pub struct NexmarkSplit {
    pub split_num: i32,
    pub split_index: i32,
    pub start_offset: Option<u64>,
    pub stop_offset: Option<u64>,
}

/// The name of the property that says into how many splits the stream is cut.
pub fn nexmark_config_split_num() -> (key: String)
    ensures
        key@ == "nexmark.split.num"@,
{
    "nexmark.split.num".to_owned()
}

/// The name of the property that says which table the events are of.
pub fn nexmark_config_table_type() -> (key: String)
    ensures
        key@ == "nexmark.table.type"@,
{
    "nexmark.table.type".to_owned()
}

/// The name of the property that says whether events come in real time.
pub fn nexmark_config_use_real_time() -> (key: String)
    ensures
        key@ == "nexmark.use.real.time"@,
{
    "nexmark.use.real.time".to_owned()
}

/// The name of the property that says how far apart events are at least.
pub fn nexmark_config_min_event_gap_in_ns() -> (key: String)
    ensures
        key@ == "nexmark.min.event.gap.in.ns"@,
{
    "nexmark.min.event.gap.in.ns".to_owned()
}

/// Cuts the stream of events into splits.
#[derive(Debug)]
pub struct NexmarkSplitEnumerator {
    split_num: i32,
}

impl NexmarkSplitEnumerator {
    /// The number of splits.
    pub closed spec fn splits(&self) -> i32 {
        self.split_num
    }

    /// The enumerator for the number of splits that the properties name, or
    /// for one split where they name none. Refused where what they name is no
    /// number.
    pub fn new(properties: &Properties) -> (r: Result<NexmarkSplitEnumerator, ConnectorError>)
        ensures
            split_num_read(properties.entries@, r),
    {
        let parsed = match properties.get_nexmark(&nexmark_config_split_num()) {
            Ok(text) => parse_i32(text),
            Err(_) => Some(1),
        };
        Self::from_split_num(parsed)
    }

    /// The enumerator for a number of splits that was read, or the error for
    /// what was read and was no number.
    pub fn from_split_num(parsed: Option<i32>) -> (r: Result<NexmarkSplitEnumerator, ConnectorError>)
        ensures
            split_num_taken(parsed, r),
    {
        match parsed {
            Some(n) => Ok(NexmarkSplitEnumerator { split_num: n }),
            None => Err(ConnectorError::InvalidNumber),
        }
    }

    /// The splits: one for each index below the number of splits, none of
    /// them with offsets.
    pub fn list_splits(&mut self) -> (splits: Vec<NexmarkSplit>)
        ensures
            *final(self) == *old(self),
            splits@.len() == if old(self).splits() > 0 {
                old(self).splits() as int
            } else {
                0
            },
            forall|i: int|
                0 <= i < splits@.len() ==> #[trigger] splits@[i] == (NexmarkSplit {
                    split_num: old(self).splits(),
                    split_index: i as i32,
                    start_offset: None,
                    stop_offset: None,
                }),
    {
        let mut splits: Vec<NexmarkSplit> = Vec::new();
        let mut i: i32 = 0;
        while i < self.split_num
            invariant
                0 <= i,
                i <= self.split_num || (self.split_num <= 0 && i == 0),
                *self == *old(self),
                splits@.len() == i,
                forall|k: int|
                    0 <= k < splits@.len() ==> #[trigger] splits@[k] == (NexmarkSplit {
                        split_num: self.split_num,
                        split_index: k as i32,
                        start_offset: None,
                        stop_offset: None,
                    }),
            decreases self.split_num - i,
        {
            splits.push(
                NexmarkSplit {
                    split_num: self.split_num,
                    split_index: i,
                    start_offset: None,
                    stop_offset: None,
                },
            );
            i += 1;
        }
        splits
    }
}

/// `r` is the enumerator for the number of splits `parsed`, or the error for
/// what was no number.
pub open spec fn split_num_taken(
    parsed: Option<i32>,
    r: Result<NexmarkSplitEnumerator, ConnectorError>,
) -> bool {
    match parsed {
        Some(n) => r matches Ok(e) && e.splits() == n,
        None => r matches Err(e) && e == ConnectorError::InvalidNumber,
    }
}

/// `r` is what the properties `entries` say of the number of splits.
pub open spec fn split_num_read(
    entries: Seq<(String, String)>,
    r: Result<NexmarkSplitEnumerator, ConnectorError>,
) -> bool {
    split_num_taken(
        match property(entries, "nexmark.split.num"@) {
            Some(text) => parsed_i32(text@),
            None => Some(1i32),
        },
        r,
    )
}

/// The table that a reader makes events of.
#[derive(Clone, Copy, Debug, PartialEq, Eq, Structural)]
pub enum EventType {
    Person,
    Auction,
    Bid,
}

/// A split of some connector, as a reader is handed it.
#[derive(Debug)]
pub enum SplitImpl {
    Nexmark(NexmarkSplit),
    /// A split of another connector, with its name.
    Other(String),
}

/// What a reader is handed to start from.
#[derive(Debug)]
pub enum ConnectorStateV2 {
    Splits(Vec<SplitImpl>),
    /// Nothing to start from.
    Unassigned,
}

/// Where the generator of events stands.
#[derive(Clone, Copy, Debug, PartialEq, Eq, Structural)]
pub struct NexmarkEventGenerator {
    pub wall_clock_base_time: usize,
    pub events_so_far: u64,
    pub events_count_max: u64,
    pub split_index: i32,
    pub split_num: i32,
    pub event_type: EventType,
    pub use_real_time: bool,
    pub min_event_gap_in_ns: u64,
}

/// Reads the events of one split.
#[derive(Clone, Copy, Debug)]
pub struct NexmarkSplitReader {
    pub generator: NexmarkEventGenerator,
    pub assigned_split: Option<NexmarkSplit>,
}

/// The table that a text names.
pub open spec fn event_type_of(text: Seq<char>) -> Option<EventType> {
    if text == "Person"@ {
        Some(EventType::Person)
    } else if text == "Auction"@ {
        Some(EventType::Auction)
    } else if text == "Bid"@ {
        Some(EventType::Bid)
    } else {
        None
    }
}

/// The flag that a text names.
pub open spec fn flag_of(text: Seq<char>) -> Option<bool> {
    if text == "true"@ {
        Some(true)
    } else if text == "false"@ {
        Some(false)
    } else {
        None
    }
}

/// The first split of the auction source among `splits`, if there is one.
pub open spec fn first_nexmark(splits: Seq<SplitImpl>) -> Option<NexmarkSplit>
    decreases splits.len(),
{
    if splits.len() == 0 {
        None
    } else {
        match splits[0] {
            SplitImpl::Nexmark(n) => Some(n),
            SplitImpl::Other(_) => first_nexmark(splits.subrange(1, splits.len() as int)),
        }
    }
}

/// What the properties and the state say of a reader, before any number is
/// parsed: the table, the flag, the text of the gap and the split.
pub struct ReaderPlan {
    pub event_type: EventType,
    pub use_real_time: bool,
    /// The gap between two events, as it was read; `None` in real time, where there is none.
    pub min_event_gap_in_ns: Option<u64>,
    pub split: Option<NexmarkSplit>,
}

/// The reader that a plan stands for, at the time `wall_clock_base_time`.
pub open spec fn reader_of(plan: ReaderPlan, wall_clock_base_time: usize) -> NexmarkSplitReader {
    let split = match plan.split {
        Some(n) => n,
        None => NexmarkSplit { split_num: 0, split_index: 0, start_offset: None, stop_offset: None },
    };
    NexmarkSplitReader {
        generator: NexmarkEventGenerator {
            wall_clock_base_time,
            events_so_far: match split.start_offset {
                Some(s) => s,
                None => 0,
            },
            events_count_max: match split.stop_offset {
                Some(s) => s,
                None => 0,
            },
            split_index: split.split_index,
            split_num: split.split_num,
            event_type: plan.event_type,
            use_real_time: plan.use_real_time,
            min_event_gap_in_ns: match plan.min_event_gap_in_ns {
                Some(g) => g,
                None => 0,
            },
        },
        assigned_split: Some(split),
    }
}

fn text_is(text: &String, word: &str) -> (r: bool)
    ensures
        r == (text@ == word@),
{
    let owned = word.to_owned();
    *text == owned
}

fn find_nexmark(splits: &Vec<SplitImpl>) -> (r: Option<NexmarkSplit>)
    ensures
        r == first_nexmark(splits@),
{
    let n = splits.len();
    let mut i: usize = 0;
    assert(splits@.subrange(0, n as int) == splits@);
    while i < n
        invariant
            i <= n,
            n == splits@.len(),
            first_nexmark(splits@) == first_nexmark(splits@.subrange(i as int, n as int)),
        decreases n - i,
    {
        let ghost rest = splits@.subrange(i as int, n as int);
        assert(rest[0] == splits@[i as int]);
        assert(rest.subrange(1, rest.len() as int) =~= splits@.subrange(i + 1, n as int));
        match &splits[i] {
            SplitImpl::Nexmark(s) => {
                return Some(*s);
            },
            SplitImpl::Other(_) => {},
        }
        i += 1;
    }
    assert(splits@.subrange(n as int, n as int).len() == 0);
    None
}

impl NexmarkSplitReader {
    /// The reader of the first split of the auction source among those of
    /// `state`, for the table, the flag and the gap that the properties name.
    /// The table has to be named; no flag means `false`; outside real time
    /// the gap is the one named, or `100000` where none is named, and in
    /// real time there is no gap. Refused where a property is missing or is
    /// not what it has to be.
    pub fn new(properties: &Properties, state: &ConnectorStateV2, wall_clock_base_time: usize) -> (r:
        Result<NexmarkSplitReader, ConnectorError>)
        ensures
            r == Self::planned(
                property(properties.entries@, "nexmark.table.type"@),
                property(properties.entries@, "nexmark.use.real.time"@),
                match property(properties.entries@, "nexmark.min.event.gap.in.ns"@) {
                    Some(text) => parsed_u64(text@),
                    None => Some(100000u64),
                },
                *state,
                wall_clock_base_time,
            ),
    {
        let table = match properties.get_nexmark(&nexmark_config_table_type()) {
            Ok(t) => Some(t),
            Err(_) => None,
        };
        let flag = match properties.get_nexmark(&nexmark_config_use_real_time()) {
            Ok(t) => Some(t),
            Err(_) => None,
        };
        let gap = match properties.get_nexmark(&nexmark_config_min_event_gap_in_ns()) {
            Ok(text) => parse_u64(text),
            Err(_) => Some(100000),
        };
        Self::from_parts(table, flag, gap, state, wall_clock_base_time)
    }

    /// The reader for the properties as they were read.
    pub open spec fn planned(
        table: Option<String>,
        flag: Option<String>,
        gap: Option<u64>,
        state: ConnectorStateV2,
        wall_clock_base_time: usize,
    ) -> Result<NexmarkSplitReader, ConnectorError> {
        match table {
            None => Err(ConnectorError::MissingProperty),
            Some(t) => match event_type_of(t@) {
                None => Err(ConnectorError::UnknownTableType),
                Some(event_type) => {
                    let use_real_time = match flag {
                        Some(f) => flag_of(f@),
                        None => Some(false),
                    };
                    match use_real_time {
                        None => Err(ConnectorError::InvalidFlag),
                        Some(live) => if !live && gap.is_none() {
                            Err(ConnectorError::InvalidNumber)
                        } else {
                            Ok(
                                reader_of(
                                    ReaderPlan {
                                        event_type,
                                        use_real_time: live,
                                        min_event_gap_in_ns: if live {
                                            None
                                        } else {
                                            gap
                                        },
                                        split: match state {
                                            ConnectorStateV2::Splits(splits) => first_nexmark(
                                                splits@,
                                            ),
                                            ConnectorStateV2::Unassigned => None,
                                        },
                                    },
                                    wall_clock_base_time,
                                ),
                            )
                        },
                    }
                },
            },
        }
    }

    /// The reader for the table and the flag as they were read, and the gap
    /// as it was parsed.
    pub fn from_parts(
        table: Option<&String>,
        flag: Option<&String>,
        gap: Option<u64>,
        state: &ConnectorStateV2,
        wall_clock_base_time: usize,
    ) -> (r: Result<NexmarkSplitReader, ConnectorError>)
        ensures
            r == Self::planned(
                match table {
                    Some(t) => Some(*t),
                    None => None,
                },
                match flag {
                    Some(f) => Some(*f),
                    None => None,
                },
                gap,
                *state,
                wall_clock_base_time,
            ),
    {
        let event_type_string = match table {
            Some(t) => t,
            None => {
                return Err(ConnectorError::MissingProperty);
            },
        };
        let event_type = if text_is(event_type_string, "Person") {
            EventType::Person
        } else if text_is(event_type_string, "Auction") {
            EventType::Auction
        } else if text_is(event_type_string, "Bid") {
            EventType::Bid
        } else {
            return Err(ConnectorError::UnknownTableType);
        };
        let use_real_time = match flag {
            Some(f) => {
                if text_is(f, "true") {
                    true
                } else if text_is(f, "false") {
                    false
                } else {
                    return Err(ConnectorError::InvalidFlag);
                }
            },
            None => false,
        };
        let mut min_event_gap_in_ns: u64 = 0;
        if !use_real_time {
            min_event_gap_in_ns =
            match gap {
                Some(g) => g,
                None => {
                    return Err(ConnectorError::InvalidNumber);
                },
            };
        }
        let mut generator = NexmarkEventGenerator {
            wall_clock_base_time,
            events_so_far: 0,
            events_count_max: 0,
            split_index: 0,
            split_num: 0,
            event_type,
            use_real_time,
            min_event_gap_in_ns,
        };
        let mut assigned_split = NexmarkSplit {
            split_num: 0,
            split_index: 0,
            start_offset: None,
            stop_offset: None,
        };
        match state {
            ConnectorStateV2::Splits(splits) => {
                if let Some(n) = find_nexmark(splits) {
                    generator.split_index = n.split_index;
                    generator.split_num = n.split_num;
                    if let Some(s) = n.start_offset {
                        generator.events_so_far = s;
                    }
                    if let Some(s) = n.stop_offset {
                        generator.events_count_max = s;
                    }
                    assigned_split = n;
                }
            },
            ConnectorStateV2::Unassigned => {},
        }
        Ok(NexmarkSplitReader { generator, assigned_split: Some(assigned_split) })
    }
}

} // verus!
