//! Batches of changes in columns, and the builder of the join's output batches.

use vstd::prelude::*;
use crate::error::StreamError;
use crate::types::{indices_within, DataType, Datum, Op, Row};

verus! {

/// The values of one column of a chunk, one for each of its rows.
#[derive(Debug)]
pub struct Column {
    pub data: Vec<Datum>,
}

impl Column {
    pub fn new(data: Vec<Datum>) -> (c: Self)
        ensures
            c.data@ == data@,
    {
        Column { data }
    }

    pub fn len(&self) -> (n: usize)
        ensures
            n == self.data@.len(),
    {
        self.data.len()
    }
}

impl Clone for Column {
    fn clone(&self) -> (c: Self)
        ensures
            c.data@ == self.data@,
    {
        let mut data: Vec<Datum> = Vec::new();
        let mut i: usize = 0;
        while i < self.data.len()
            invariant
                i <= self.data.len(),
                data@ == self.data@.subrange(0, i as int),
            decreases self.data.len() - i,
        {
            data.push(self.data[i]);
            assert(data@ == self.data@.subrange(0, i + 1));
            i += 1;
        }
        assert(self.data@.subrange(0, self.data@.len() as int) == self.data@);
        Column { data }
    }
}

/// Get clones of inputs by given `pk_indices` from `columns`.
pub fn pk_input_arrays(pk_indices: &[usize], columns: &[Column]) -> (arrays: Vec<Column>)
    requires
        indices_within(pk_indices@, columns@.len()),
    ensures
        arrays@.len() == pk_indices@.len(),
        forall|i: int|
            0 <= i < arrays@.len() ==> (#[trigger] arrays@[i]).data@
                == columns@[pk_indices@[i] as int].data@,
{
    let mut arrays: Vec<Column> = Vec::new();
    let mut i: usize = 0;
    while i < pk_indices.len()
        invariant
            i <= pk_indices.len(),
            indices_within(pk_indices@, columns@.len()),
            arrays@.len() == i,
            forall|k: int|
                0 <= k < i ==> (#[trigger] arrays@[k]).data@ == columns@[pk_indices@[k] as int].data@,
        decreases pk_indices.len() - i,
    {
        arrays.push(columns[pk_indices[i]].clone());
        i += 1;
    }
    arrays
}

/// Get references to inputs by given `pk_indices` from `columns`.
pub fn pk_input_array_refs<'a>(pk_indices: &[usize], columns: &'a [Column]) -> (arrays: Vec<
    &'a Column,
>)
    requires
        indices_within(pk_indices@, columns@.len()),
    ensures
        arrays@.len() == pk_indices@.len(),
        forall|i: int|
            0 <= i < arrays@.len() ==> *(#[trigger] arrays@[i]) == columns@[pk_indices@[i] as int],
{
    let mut arrays: Vec<&'a Column> = Vec::new();
    let mut i: usize = 0;
    while i < pk_indices.len()
        invariant
            i <= pk_indices.len(),
            indices_within(pk_indices@, columns@.len()),
            arrays@.len() == i,
            forall|k: int|
                0 <= k < i ==> *(#[trigger] arrays@[k]) == columns@[pk_indices@[k] as int],
        decreases pk_indices.len() - i,
    {
        arrays.push(&columns[pk_indices[i]]);
        i += 1;
    }
    arrays
}

/// The `i`-th row of a table held by columns.
pub open spec fn row_of(cols: Seq<Seq<Datum>>, i: int) -> Seq<Datum> {
    Seq::new(cols.len(), |j: int| cols[j][i])
}

/// The first `n` rows of a table, each with its operation, without those that
/// `vis` hides.
pub open spec fn visible_rows(
    ops: Seq<Op>,
    cols: Seq<Seq<Datum>>,
    vis: Option<Seq<bool>>,
    n: int,
) -> Seq<(Op, Seq<Datum>)>
    decreases n,
{
    if n <= 0 {
        Seq::empty()
    } else {
        let before = visible_rows(ops, cols, vis, n - 1);
        if vis matches Some(v) && !v[n - 1] {
            before
        } else {
            before.push((ops[n - 1], row_of(cols, n - 1)))
        }
    }
}

/// With nothing hidden the visible rows are all the rows.
pub proof fn lemma_visible_rows_all(ops: Seq<Op>, cols: Seq<Seq<Datum>>, n: int)
    requires
        0 <= n,
    ensures
        visible_rows(ops, cols, None, n) == Seq::new(n as nat, |i: int| (ops[i], row_of(cols, i))),
    decreases n,
{
    if n > 0 {
        lemma_visible_rows_all(ops, cols, n - 1);
    }
    assert(visible_rows(ops, cols, None, n) =~= Seq::new(
        n as nat,
        |i: int| (ops[i], row_of(cols, i)),
    ));
}

/// A batch of changes: one operation for each row, the rows held by columns,
/// and optionally one visibility bit for each row.
#[derive(Debug)]
pub struct StreamChunk {
    pub ops: Vec<Op>,
    pub columns: Vec<Column>,
    pub visibility: Option<Vec<bool>>,
}

impl StreamChunk {
    /// The columns as sequences of values.
    pub open spec fn cols(&self) -> Seq<Seq<Datum>> {
        Seq::new(self.columns@.len(), |j: int| self.columns@[j].data@)
    }

    pub open spec fn vis(&self) -> Option<Seq<bool>> {
        match self.visibility {
            Some(v) => Some(v@),
            None => None,
        }
    }

    /// Every column, and the visibility if there is one, has one entry for each operation.
    pub open spec fn valid(&self) -> bool {
        &&& forall|j: int|
            0 <= j < self.columns@.len() ==> (#[trigger] self.columns@[j]).data@.len()
                == self.ops@.len()
        &&& self.visibility matches Some(v) ==> v@.len() == self.ops@.len()
    }

    /// The changes that the chunk stands for: its visible rows, in order, each with its operation.
    pub open spec fn rows(&self) -> Seq<(Op, Seq<Datum>)> {
        visible_rows(self.ops@, self.cols(), self.vis(), self.ops@.len() as int)
    }

    /// The number of rows, hidden ones included.
    pub fn capacity(&self) -> (n: usize)
        ensures
            n == self.ops@.len(),
    {
        self.ops.len()
    }

    pub fn is_valid(&self) -> (r: bool)
        ensures
            r == self.valid(),
    {
        let n = self.ops.len();
        let mut j: usize = 0;
        while j < self.columns.len()
            invariant
                j <= self.columns.len(),
                n == self.ops@.len(),
                forall|k: int| 0 <= k < j ==> (#[trigger] self.columns@[k]).data@.len() == n,
            decreases self.columns.len() - j,
        {
            if self.columns[j].data.len() != n {
                return false;
            }
            j += 1;
        }
        match &self.visibility {
            Some(v) => v.len() == n,
            None => true,
        }
    }

    /// The `i`-th row, hidden or not.
    pub fn row_at(&self, i: usize) -> (row: Row)
        requires
            self.valid(),
            i < self.ops@.len(),
        ensures
            row@ == row_of(self.cols(), i as int),
    {
        let mut data: Vec<Datum> = Vec::new();
        let mut j: usize = 0;
        while j < self.columns.len()
            invariant
                j <= self.columns.len(),
                self.valid(),
                i < self.ops@.len(),
                data@ == row_of(self.cols(), i as int).subrange(0, j as int),
            decreases self.columns.len() - j,
        {
            assert(self.columns@[j as int].data@.len() == self.ops@.len());
            data.push(self.columns[j].data[i]);
            assert(data@ =~= row_of(self.cols(), i as int).subrange(0, j + 1));
            j += 1;
        }
        assert(data@ =~= row_of(self.cols(), i as int));
        Row(data)
    }

    /// Drops the hidden rows: the result stands for the same changes and has no
    /// visibility. A chunk that is not valid is refused.
    pub fn compact(&self) -> (r: Result<StreamChunk, StreamError>)
        ensures
            match r {
                Ok(c) => {
                    &&& self.valid()
                    &&& c.valid()
                    &&& c.visibility.is_none()
                    &&& c.columns@.len() == self.columns@.len()
                    &&& c.rows() == self.rows()
                },
                Err(e) => e == StreamError::MalformedChunk && !self.valid(),
            },
    {
        if !self.is_valid() {
            return Err(StreamError::MalformedChunk);
        }
        let n = self.ops.len();
        let w = self.columns.len();
        let mut ops: Vec<Op> = Vec::new();
        let mut data: Vec<Vec<Datum>> = Vec::new();
        let mut j: usize = 0;
        while j < w
            invariant
                j <= w,
                data@.len() == j,
                forall|k: int| 0 <= k < j ==> (#[trigger] data@[k])@.len() == 0,
            decreases w - j,
        {
            data.push(Vec::new());
            j += 1;
        }
        let ghost target = self.rows();
        let mut i: usize = 0;
        while i < n
            invariant
                i <= n,
                n == self.ops@.len(),
                w == self.columns@.len(),
                self.valid(),
                data@.len() == w,
                forall|k: int| 0 <= k < w ==> (#[trigger] data@[k])@.len() == ops@.len(),
                Seq::new(ops@.len(), |r: int| (ops@[r], Seq::new(w as nat, |k: int| data@[k]@[r])))
                    == visible_rows(self.ops@, self.cols(), self.vis(), i as int),
            decreases n - i,
        {
            let keep = match &self.visibility {
                Some(v) => v[i],
                None => true,
            };
            if keep {
                let ghost ops0 = ops@;
                let ghost data0 = data@;
                ops.push(self.ops[i]);
                let mut j: usize = 0;
                while j < w
                    invariant
                        j <= w,
                        i < n,
                        n == self.ops@.len(),
                        w == self.columns@.len(),
                        self.valid(),
                        data@.len() == w,
                        ops@ == ops0.push(self.ops@[i as int]),
                        data0.len() == w,
                        forall|k: int| 0 <= k < w ==> (#[trigger] data0[k])@.len() == ops0.len(),
                        forall|k: int|
                            0 <= k < j ==> (#[trigger] data@[k])@ == data0[k]@.push(
                                self.columns@[k].data@[i as int],
                            ),
                        forall|k: int| j <= k < w ==> (#[trigger] data@[k]) == data0[k],
                    decreases w - j,
                {
                    assert(self.columns@[j as int].data@.len() == n);
                    let d = self.columns[j].data[i];
                    let mut col: Vec<Datum> = Vec::new();
                    std::mem::swap(&mut col, &mut data[j]);
                    col.push(d);
                    data[j] = col;
                    j += 1;
                }
                proof {
                    let before = visible_rows(self.ops@, self.cols(), self.vis(), i as int);
                    let now = Seq::new(
                        ops@.len(),
                        |r: int| (ops@[r], Seq::new(w as nat, |k: int| data@[k]@[r])),
                    );
                    assert(now =~= before.push((self.ops@[i as int], row_of(self.cols(), i as int))))
                        by {
                        assert forall|r: int| 0 <= r < ops0.len() implies now[r] == before[r] by {
                            assert(before[r] == (
                                ops0[r],
                                Seq::new(w as nat, |k: int| data0[k]@[r]),
                            ));
                            assert(now[r].1 =~= before[r].1);
                        }
                        assert(now[ops0.len() as int].1 =~= row_of(self.cols(), i as int));
                    }
                }
            }
            i += 1;
        }
        let ghost filled = data@;
        let columns = into_columns(data);
        let out = StreamChunk { ops, columns, visibility: None };
        proof {
            lemma_visible_rows_all(out.ops@, out.cols(), out.ops@.len() as int);
            assert forall|r: int| 0 <= r < out.ops@.len() implies row_of(out.cols(), r)
                == Seq::new(w as nat, |k: int| filled[k]@[r]) by {
                assert(row_of(out.cols(), r) =~= Seq::new(w as nat, |k: int| filled[k]@[r]));
            }
            assert(out.rows() =~= target);
        }
        Ok(out)
    }
}

/// Wraps each vector of values as a column.
fn into_columns(data: Vec<Vec<Datum>>) -> (columns: Vec<Column>)
    ensures
        columns@.len() == data@.len(),
        forall|k: int| 0 <= k < data@.len() ==> (#[trigger] columns@[k]).data@ == data@[k]@,
{
    let mut data = data;
    let w = data.len();
    let ghost filled = data@;
    let mut columns: Vec<Column> = Vec::new();
    let mut j: usize = 0;
    while j < w
        invariant
            j <= w,
            data@.len() == w,
            filled.len() == w,
            columns@.len() == j,
            forall|k: int| 0 <= k < j ==> (#[trigger] columns@[k]).data@ == filled[k]@,
            forall|k: int| j <= k < w ==> (#[trigger] data@[k]) == filled[k],
        decreases w - j,
    {
        let mut col: Vec<Datum> = Vec::new();
        std::mem::swap(&mut col, &mut data[j]);
        columns.push(Column { data: col });
        j += 1;
    }
    columns
}

/// The output row that holds `u` from column `us` on and `m` from column `ms`
/// on, and NULL in every other column.
pub open spec fn place(width: nat, us: int, u: Seq<Datum>, ms: int, m: Seq<Datum>) -> Seq<Datum> {
    Seq::new(
        width,
        |j: int|
            if us <= j < us + u.len() {
                u[j - us]
            } else if ms <= j < ms + m.len() {
                m[j - ms]
            } else {
                None
            },
    )
}

/// A part of `ulen` columns from `us` on and one of `mlen` columns from `ms`
/// on make up a row of `width` columns, one part after the other.
pub open spec fn fits(width: nat, us: int, ulen: nat, ms: int, mlen: nat) -> bool {
    ulen + mlen == width && ((us == 0 && ms == ulen) || (ms == 0 && us == mlen))
}

/// Builds the output chunk of the join, row by row. Each row is made of a
/// part for the side that the update came from and a part for the side it was
/// matched with; either part may be filled with NULL.
pub struct StreamChunkBuilder {
    ops: Vec<Op>,
    column_builders: Vec<Vec<Datum>>,
    update_start_pos: usize,
    matched_start_pos: usize,
}

impl StreamChunkBuilder {
    pub closed spec fn wf(&self) -> bool {
        forall|k: int|
            0 <= k < self.column_builders@.len() ==> (#[trigger] self.column_builders@[k])@.len()
                == self.ops@.len()
    }

    /// The number of columns of the rows.
    pub closed spec fn width(&self) -> nat {
        self.column_builders@.len()
    }

    /// The column at which the part of the updating side starts.
    pub closed spec fn update_start(&self) -> int {
        self.update_start_pos as int
    }

    /// The column at which the part of the matched side starts.
    pub closed spec fn matched_start(&self) -> int {
        self.matched_start_pos as int
    }

    /// The rows appended so far, each with its operation.
    pub closed spec fn rows(&self) -> Seq<(Op, Seq<Datum>)> {
        Seq::new(
            self.ops@.len(),
            |r: int|
                (
                    self.ops@[r],
                    Seq::new(self.column_builders@.len(), |k: int| self.column_builders@[k]@[r]),
                ),
        )
    }

    /// A builder without rows, with one column for each of `data_types`.
    pub fn new(
        capacity: usize,
        data_types: &Vec<DataType>,
        update_start_pos: usize,
        matched_start_pos: usize,
    ) -> (b: Self)
        ensures
            b.wf(),
            b.width() == data_types@.len(),
            b.update_start() == update_start_pos,
            b.matched_start() == matched_start_pos,
            b.rows() == Seq::<(Op, Seq<Datum>)>::empty(),
    {
        let ops: Vec<Op> = Vec::with_capacity(capacity);
        let mut column_builders: Vec<Vec<Datum>> = Vec::new();
        let mut j: usize = 0;
        while j < data_types.len()
            invariant
                j <= data_types.len(),
                column_builders@.len() == j,
                forall|k: int| 0 <= k < j ==> (#[trigger] column_builders@[k])@.len() == 0,
            decreases data_types.len() - j,
        {
            column_builders.push(Vec::with_capacity(capacity));
            j += 1;
        }
        let b = StreamChunkBuilder { ops, column_builders, update_start_pos, matched_start_pos };
        assert(b.rows() =~= Seq::<(Op, Seq<Datum>)>::empty());
        b
    }

    /// Appends one row of `width` values.
    fn push_row(&mut self, op: Op, row: &Vec<Datum>)
        requires
            old(self).wf(),
            row@.len() == old(self).width(),
        ensures
            final(self).wf(),
            final(self).width() == old(self).width(),
            final(self).update_start() == old(self).update_start(),
            final(self).matched_start() == old(self).matched_start(),
            final(self).rows() == old(self).rows().push((op, row@)),
    {
        let w = self.column_builders.len();
        let ghost ops0 = self.ops@;
        let ghost data0 = self.column_builders@;
        self.ops.push(op);
        let mut j: usize = 0;
        while j < w
            invariant
                j <= w,
                w == row@.len(),
                self.column_builders@.len() == w,
                data0.len() == w,
                self.ops@ == ops0.push(op),
                self.update_start_pos == old(self).update_start_pos,
                self.matched_start_pos == old(self).matched_start_pos,
                forall|k: int| 0 <= k < w ==> (#[trigger] data0[k])@.len() == ops0.len(),
                forall|k: int|
                    0 <= k < j ==> (#[trigger] self.column_builders@[k])@ == data0[k]@.push(row@[k]),
                forall|k: int| j <= k < w ==> (#[trigger] self.column_builders@[k]) == data0[k],
            decreases w - j,
        {
            let mut col: Vec<Datum> = Vec::new();
            std::mem::swap(&mut col, &mut self.column_builders[j]);
            col.push(row[j]);
            self.column_builders[j] = col;
            j += 1;
        }
        proof {
            let now = self.rows();
            let want = old(self).rows().push((op, row@));
            assert(now.len() == want.len());
            assert forall|r: int| 0 <= r < now.len() implies now[r] == want[r] by {
                assert(now[r].1 =~= want[r].1);
            }
            assert(now =~= want);
        }
    }

    /// The row `place(width, us, u, ms, m)` as a vector.
    fn placed(width: usize, us: usize, u: &Vec<Datum>, ms: usize, m: &Vec<Datum>) -> (row: Vec<
        Datum,
    >)
        ensures
            row@ == place(width as nat, us as int, u@, ms as int, m@),
    {
        let mut row: Vec<Datum> = Vec::new();
        let mut j: usize = 0;
        while j < width
            invariant
                j <= width,
                row@ == place(width as nat, us as int, u@, ms as int, m@).subrange(0, j as int),
            decreases width - j,
        {
            let d: Datum = if j >= us && j - us < u.len() {
                u[j - us]
            } else if j >= ms && j - ms < m.len() {
                m[j - ms]
            } else {
                None
            };
            row.push(d);
            assert(row@ =~= place(width as nat, us as int, u@, ms as int, m@).subrange(0, j + 1));
            j += 1;
        }
        assert(row@ =~= place(width as nat, us as int, u@, ms as int, m@));
        row
    }

    /// Whether parts of `ulen` and `mlen` columns fill a row of this builder.
    fn parts_fit(&self, ulen: usize, mlen: usize) -> (r: bool)
        ensures
            r == fits(self.width(), self.update_start(), ulen as nat, self.matched_start(), mlen as nat),
    {
        let w = self.column_builders.len();
        ulen <= w && w - ulen == mlen && ((self.update_start_pos == 0 && self.matched_start_pos
            == ulen) || (self.matched_start_pos == 0 && self.update_start_pos == mlen))
    }

    /// Appends the row made of the update and of the row it matched. Refused,
    /// with nothing appended, unless the two parts fill a row.
    pub fn append_row(&mut self, op: Op, row_update: &Row, row_matched: &Row) -> (r: Result<
        (),
        StreamError,
    >)
        requires
            old(self).wf(),
        ensures
            final(self).wf(),
            final(self).width() == old(self).width(),
            final(self).update_start() == old(self).update_start(),
            final(self).matched_start() == old(self).matched_start(),
            r.is_ok() == fits(
                old(self).width(),
                old(self).update_start(),
                row_update@.len(),
                old(self).matched_start(),
                row_matched@.len(),
            ),
            r.is_ok() ==> final(self).rows() == old(self).rows().push(
                (
                    op,
                    place(
                        old(self).width(),
                        old(self).update_start(),
                        row_update@,
                        old(self).matched_start(),
                        row_matched@,
                    ),
                ),
            ),
            r.is_err() ==> final(self).rows() == old(self).rows() && r
                == Err::<(), StreamError>(StreamError::WidthMismatch),
    {
        if !self.parts_fit(row_update.0.len(), row_matched.0.len()) {
            return Err(StreamError::WidthMismatch);
        }
        let row = Self::placed(
            self.column_builders.len(),
            self.update_start_pos,
            &row_update.0,
            self.matched_start_pos,
            &row_matched.0,
        );
        self.push_row(op, &row);
        Ok(())
    }

    /// Appends the row made of the update and of NULL in the place of the
    /// matched side. Refused, with nothing appended, unless the update and the
    /// columns left for the other side fill a row.
    pub fn append_row_update(&mut self, op: Op, row_update: &Row) -> (r: Result<(), StreamError>)
        requires
            old(self).wf(),
        ensures
            final(self).wf(),
            final(self).width() == old(self).width(),
            final(self).update_start() == old(self).update_start(),
            final(self).matched_start() == old(self).matched_start(),
            r.is_ok() == (row_update@.len() <= old(self).width() && fits(
                old(self).width(),
                old(self).update_start(),
                row_update@.len(),
                old(self).matched_start(),
                (old(self).width() - row_update@.len()) as nat,
            )),
            r.is_ok() ==> final(self).rows() == old(self).rows().push(
                (
                    op,
                    place(
                        old(self).width(),
                        old(self).update_start(),
                        row_update@,
                        old(self).matched_start(),
                        Seq::empty(),
                    ),
                ),
            ),
            r.is_err() ==> final(self).rows() == old(self).rows() && r
                == Err::<(), StreamError>(StreamError::WidthMismatch),
    {
        let w = self.column_builders.len();
        if row_update.0.len() > w || !self.parts_fit(row_update.0.len(), w - row_update.0.len()) {
            return Err(StreamError::WidthMismatch);
        }
        let nothing: Vec<Datum> = Vec::new();
        let row = Self::placed(
            w,
            self.update_start_pos,
            &row_update.0,
            self.matched_start_pos,
            &nothing,
        );
        self.push_row(op, &row);
        Ok(())
    }

    /// Appends the row made of NULL in the place of the updating side and of
    /// the matched row. Refused, with nothing appended, unless the matched row
    /// and the columns left for the other side fill a row.
    pub fn append_row_matched(&mut self, op: Op, row_matched: &Row) -> (r: Result<(), StreamError>)
        requires
            old(self).wf(),
        ensures
            final(self).wf(),
            final(self).width() == old(self).width(),
            final(self).update_start() == old(self).update_start(),
            final(self).matched_start() == old(self).matched_start(),
            r.is_ok() == (row_matched@.len() <= old(self).width() && fits(
                old(self).width(),
                old(self).update_start(),
                (old(self).width() - row_matched@.len()) as nat,
                old(self).matched_start(),
                row_matched@.len(),
            )),
            r.is_ok() ==> final(self).rows() == old(self).rows().push(
                (
                    op,
                    place(
                        old(self).width(),
                        old(self).update_start(),
                        Seq::empty(),
                        old(self).matched_start(),
                        row_matched@,
                    ),
                ),
            ),
            r.is_err() ==> final(self).rows() == old(self).rows() && r
                == Err::<(), StreamError>(StreamError::WidthMismatch),
    {
        let w = self.column_builders.len();
        if row_matched.0.len() > w || !self.parts_fit(w - row_matched.0.len(), row_matched.0.len()) {
            return Err(StreamError::WidthMismatch);
        }
        let nothing: Vec<Datum> = Vec::new();
        let row = Self::placed(
            w,
            self.update_start_pos,
            &nothing,
            self.matched_start_pos,
            &row_matched.0,
        );
        self.push_row(op, &row);
        Ok(())
    }

    /// The chunk of the rows appended, in the order in which they were appended.
    pub fn finish(self) -> (c: StreamChunk)
        requires
            self.wf(),
        ensures
            c.valid(),
            c.visibility.is_none(),
            c.columns@.len() == self.width(),
            c.rows() == self.rows(),
    {
        let ghost data = self.column_builders@;
        let ghost target = self.rows();
        let columns = into_columns(self.column_builders);
        let out = StreamChunk { ops: self.ops, columns, visibility: None };
        proof {
            lemma_visible_rows_all(out.ops@, out.cols(), out.ops@.len() as int);
            assert forall|r: int| 0 <= r < out.ops@.len() implies row_of(out.cols(), r)
                == target[r].1 by {
                assert(row_of(out.cols(), r) =~= target[r].1);
            }
            assert(out.rows() =~= target);
        }
        out
    }
}

} // verus!
