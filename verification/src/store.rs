//! The store: the fact table, the daily aggregate table, and the poll
//! watermark, with the upsert engine that keeps the aggregates consistent
//! with the facts under every observation.

use vstd::prelude::*;
use crate::models::AggregateCell;
use crate::models::Pipeline;
use crate::models::fact_ok;
use crate::models::spec_fact_date;
use crate::models::spec_in_cell;
use crate::aggregate::lemma_cell_zero;
use crate::aggregate::lemma_count_pos_member;
use crate::aggregate::lemma_group_bounds;
use crate::aggregate::lemma_group_member;
use crate::aggregate::lemma_group_push;
use crate::aggregate::lemma_group_update;
use crate::aggregate::spec_count;
use crate::aggregate::spec_dur_count;
use crate::aggregate::spec_dur_sum;
use crate::aggregate::spec_row_dur;
use crate::aggregate::spec_row_has_dur;
use crate::calendar::date_string_of_timestamp;

verus! {

/// Failure of a store write; the transaction is rolled back and the store is
/// left unchanged.
pub enum StoreError {
    /// An aggregate counter cannot take the addition.
    Overflow,
}

/// Whether cell `c` is keyed by (`date`, `pid`, `st`).
pub open spec fn cell_key_is(c: AggregateCell, date: Seq<char>, pid: int, st: Seq<char>) -> bool {
    &&& c.date@ == date
    &&& c.project_id == pid
    &&& c.status@ == st
}

/// Whether two cells carry the same key.
pub open spec fn same_cell_key(a: AggregateCell, b: AggregateCell) -> bool {
    cell_key_is(a, b.date@, b.project_id as int, b.status@)
}

/// A cell agrees with the grouping of the fact rows for its key.
pub open spec fn cell_consistent(c: AggregateCell, rows: Seq<Pipeline>) -> bool {
    &&& c.count == spec_count(rows, c.date@, c.project_id as int, c.status@)
    &&& c.total_duration == spec_dur_sum(rows, c.date@, c.project_id as int, c.status@)
    &&& c.count_with_duration == spec_dur_count(rows, c.date@, c.project_id as int, c.status@)
}

/// The fact-row reconciliation policy. A late non-terminal observation of a
/// finished pipeline keeps the stored status and finish time; duration and
/// URL are taken from the observation when present; the user name only when
/// non-empty; identity, project, ref and creation time never change.
pub open spec fn spec_merge(old_row: Pipeline, p: Pipeline) -> Pipeline {
    (Pipeline {
        id: old_row.id,
        project_id: old_row.project_id,
        project_name: old_row.project_name,
        project_full_path: old_row.project_full_path,
        ref_name: old_row.ref_name,
        sha: p.sha,
        user_name: if p.user_name@.len() > 0 {
            p.user_name
        } else {
            old_row.user_name
        },
        status: if p.finished_at is None && old_row.finished_at is Some {
            old_row.status
        } else {
            p.status
        },
        created_at: old_row.created_at,
        finished_at: if p.finished_at is Some {
            p.finished_at
        } else {
            old_row.finished_at
        },
        duration: if p.duration is Some {
            p.duration
        } else {
            old_row.duration
        },
        web_url: if p.web_url is Some {
            p.web_url
        } else {
            old_row.web_url
        },
    })
}

/// Whether `pair` names the id and project of some fact row whose user
/// name is empty.
pub open spec fn missing_pair_of(rows: Seq<Pipeline>, pair: (i64, i64)) -> bool {
    exists|j: int|
        0 <= j < rows.len() && (#[trigger] rows[j]).id == pair.0 && rows[j].project_id == pair.1
            && rows[j].user_name@.len() == 0
}

/// Whether some fact row carries this pipeline id.
pub open spec fn spec_has_id(rows: Seq<Pipeline>, id: int) -> bool {
    exists|j: int| 0 <= j < rows.len() && (#[trigger] rows[j]).id == id
}

/// The index of the fact row carrying this id (unique under the store
/// invariant).
pub open spec fn spec_id_index(rows: Seq<Pipeline>, id: int) -> int {
    choose|j: int| 0 <= j < rows.len() && (#[trigger] rows[j]).id == id
}

/// The post-image of the fact row for an observation `p`.
pub open spec fn spec_result_row(rows: Seq<Pipeline>, p: Pipeline) -> Pipeline {
    if spec_has_id(rows, p.id as int) {
        spec_merge(rows[spec_id_index(rows, p.id as int)], p)
    } else {
        p
    }
}

pub open spec fn spec_opt_dur(d: Option<i64>) -> int {
    if d is Some {
        d->Some_0 as int
    } else {
        0
    }
}

pub open spec fn spec_opt_has(d: Option<i64>) -> int {
    if d is Some {
        1int
    } else {
        0int
    }
}

/// Whether incrementing the cell for key (`date`, `pid`, `st`) by one row
/// with duration `dur` would exceed the counter range.
pub open spec fn spec_inc_overflow(
    rows: Seq<Pipeline>,
    date: Seq<char>,
    pid: int,
    st: Seq<char>,
    dur: Option<i64>,
) -> bool {
    ||| spec_count(rows, date, pid, st) + 1 > i64::MAX as int
    ||| spec_dur_sum(rows, date, pid, st) + spec_opt_dur(dur) > i64::MAX as int
    ||| spec_dur_count(rows, date, pid, st) + spec_opt_has(dur) > i64::MAX as int
}

/// Whether the aggregate adjustment for observation `p` would exceed the
/// counter range, over the pre-state fact rows.
pub open spec fn spec_upsert_overflow(rows: Seq<Pipeline>, p: Pipeline) -> bool {
    if spec_has_id(rows, p.id as int) {
        let old_row = rows[spec_id_index(rows, p.id as int)];
        let merged = spec_merge(old_row, p);
        if merged.status@ == old_row.status@ {
            let date = spec_fact_date(old_row);
            let pid = old_row.project_id as int;
            let st = old_row.status@;
            ||| spec_dur_sum(rows, date, pid, st) - spec_row_dur(old_row) + spec_row_dur(merged)
                > i64::MAX as int
            ||| spec_dur_count(rows, date, pid, st) - spec_row_has_dur(old_row)
                + spec_row_has_dur(merged) > i64::MAX as int
        } else {
            spec_inc_overflow(
                rows,
                spec_fact_date(merged),
                merged.project_id as int,
                merged.status@,
                merged.duration,
            )
        }
    } else {
        spec_inc_overflow(rows, spec_fact_date(p), p.project_id as int, p.status@, p.duration)
    }
}

/// The cell after one more row with duration `dur` is counted into it; the
/// denormalized project name is refreshed from the observation.
pub open spec fn spec_bumped_cell(c: AggregateCell, name: String, dur: Option<i64>) -> AggregateCell {
    (AggregateCell {
        date: c.date,
        project_id: c.project_id,
        project_name: name,
        status: c.status,
        count: (c.count + 1) as i64,
        total_duration: (c.total_duration + spec_opt_dur(dur)) as i64,
        count_with_duration: (c.count_with_duration + spec_opt_has(dur)) as i64,
    })
}

/// The cell after a same-cell re-observation: only the two duration
/// measures move, by the difference between the old and the merged row.
pub open spec fn spec_adjusted_cell(c: AggregateCell, old_row: Pipeline, merged: Pipeline) -> AggregateCell {
    (AggregateCell {
        date: c.date,
        project_id: c.project_id,
        project_name: c.project_name,
        status: c.status,
        count: c.count,
        total_duration: (c.total_duration - spec_row_dur(old_row) + spec_row_dur(merged)) as i64,
        count_with_duration: (c.count_with_duration - spec_row_has_dur(old_row)
            + spec_row_has_dur(merged)) as i64,
    })
}

/// The cell after one row's contribution is removed from it.
pub open spec fn spec_decremented_cell(c: AggregateCell, old_row: Pipeline) -> AggregateCell {
    (AggregateCell {
        date: c.date,
        project_id: c.project_id,
        project_name: c.project_name,
        status: c.status,
        count: (c.count - 1) as i64,
        total_duration: (c.total_duration - spec_row_dur(old_row)) as i64,
        count_with_duration: (c.count_with_duration - spec_row_has_dur(old_row)) as i64,
    })
}

/// A cell as the increment path creates it: the given key, the observation's
/// path as its name, and exactly one row counted.
pub open spec fn spec_new_cell_ok(
    c: AggregateCell,
    date: Seq<char>,
    pid: int,
    st: Seq<char>,
    name: String,
    dur: Option<i64>,
) -> bool {
    &&& cell_key_is(c, date, pid, st)
    &&& c.project_name == name
    &&& c.count == 1
    &&& c.total_duration == spec_opt_dur(dur)
    &&& c.count_with_duration == spec_opt_has(dur)
}

/// How one observation reshapes the aggregate table: a same-cell adjustment,
/// a decrement plus an increment or a fresh cell on a status change, or an
/// increment or a fresh cell for a new row. Every cell not named here keeps
/// its exact value, in place.
pub open spec fn spec_upsert_cells(
    rows0: Seq<Pipeline>,
    cells0: Seq<AggregateCell>,
    p: Pipeline,
    cells1: Seq<AggregateCell>,
) -> bool {
    if spec_has_id(rows0, p.id as int) {
        let old_row = rows0[spec_id_index(rows0, p.id as int)];
        let merged = spec_merge(old_row, p);
        let date = spec_fact_date(old_row);
        let pid = old_row.project_id as int;
        if merged.status@ == old_row.status@ {
            exists|ci: int|
                0 <= ci < cells0.len() && cell_key_is(#[trigger] cells0[ci], date, pid, old_row.status@)
                    && cells1 == cells0.update(
                    ci,
                    spec_adjusted_cell(cells0[ci], old_row, merged),
                )
        } else {
            exists|oci: int|
                0 <= oci < cells0.len() && cell_key_is(#[trigger] cells0[oci], date, pid, old_row.status@)
                    && ({
                    let dec = cells0.update(oci, spec_decremented_cell(cells0[oci], old_row));
                    ||| (exists|nci: int|
                        0 <= nci < cells0.len() && cell_key_is(
                            #[trigger] cells0[nci],
                            date,
                            pid,
                            merged.status@,
                        ) && cells1 == dec.update(
                            nci,
                            spec_bumped_cell(cells0[nci], p.project_full_path, merged.duration),
                        ))
                    ||| ((forall|nci: int|
                        0 <= nci < cells0.len() ==> !cell_key_is(
                            #[trigger] cells0[nci],
                            date,
                            pid,
                            merged.status@,
                        )) && cells1.len() == cells0.len() + 1 && cells1 == dec.push(cells1.last())
                        && spec_new_cell_ok(
                        cells1.last(),
                        date,
                        pid,
                        merged.status@,
                        p.project_full_path,
                        merged.duration,
                    ))
                })
        }
    } else {
        ||| (exists|ci: int|
            0 <= ci < cells0.len() && cell_key_is(
                #[trigger] cells0[ci],
                spec_fact_date(p),
                p.project_id as int,
                p.status@,
            ) && cells1 == cells0.update(
                ci,
                spec_bumped_cell(cells0[ci], p.project_full_path, p.duration),
            ))
        ||| ((forall|ci: int|
            0 <= ci < cells0.len() ==> !cell_key_is(
                #[trigger] cells0[ci],
                spec_fact_date(p),
                p.project_id as int,
                p.status@,
            )) && cells1.len() == cells0.len() + 1 && cells1 == cells0.push(cells1.last())
            && spec_new_cell_ok(
            cells1.last(),
            spec_fact_date(p),
            p.project_id as int,
            p.status@,
            p.project_full_path,
            p.duration,
        ))
    }
}

/// No two fact rows carry the same pipeline id.
pub open spec fn rows_ids_unique(rows: Seq<Pipeline>) -> bool {
    forall|i: int, j: int|
        0 <= i < j < rows.len() ==> (#[trigger] rows[i]).id != (#[trigger] rows[j]).id
}

/// Every fact row is well-formed.
pub open spec fn rows_ok(rows: Seq<Pipeline>) -> bool {
    forall|i: int| 0 <= i < rows.len() ==> fact_ok(#[trigger] rows[i])
}

/// No two cells carry the same (date, project, status) key.
pub open spec fn cells_keys_unique(cells: Seq<AggregateCell>) -> bool {
    forall|i: int, j: int|
        0 <= i < j < cells.len() ==> !same_cell_key(#[trigger] cells[i], #[trigger] cells[j])
}

/// Every cell agrees with the grouping of the fact table.
pub open spec fn cells_consistent(cells: Seq<AggregateCell>, rows: Seq<Pipeline>) -> bool {
    forall|i: int| 0 <= i < cells.len() ==> cell_consistent(#[trigger] cells[i], rows)
}

/// Fact row `j` has a cell for its key.
pub open spec fn row_covered(cells: Seq<AggregateCell>, rows: Seq<Pipeline>, j: int) -> bool {
    exists|i: int|
        0 <= i < cells.len() && cell_key_is(
            #[trigger] cells[i],
            spec_fact_date(rows[j]),
            rows[j].project_id as int,
            rows[j].status@,
        )
}

/// Every fact row has a cell for its key.
pub open spec fn cells_complete(cells: Seq<AggregateCell>, rows: Seq<Pipeline>) -> bool {
    forall|j: int| 0 <= j < rows.len() ==> #[trigger] row_covered(cells, rows, j)
}

/// The store invariant over its two tables.
pub open spec fn store_wf(rows: Seq<Pipeline>, cells: Seq<AggregateCell>) -> bool {
    &&& rows_ids_unique(rows)
    &&& rows_ok(rows)
    &&& cells_keys_unique(cells)
    &&& cells_consistent(cells, rows)
    &&& cells_complete(cells, rows)
}

/// Some cell in `cells` carries the same key as `c`.
pub open spec fn key_present(cells: Seq<AggregateCell>, c: AggregateCell) -> bool {
    exists|i: int| 0 <= i < cells.len() && same_cell_key(#[trigger] cells[i], c)
}

/// Under unique ids, the id of row `j` indexes back to `j`.
proof fn lemma_id_index_is(rows: Seq<Pipeline>, j: int)
    requires
        rows_ids_unique(rows),
        0 <= j < rows.len(),
    ensures
        spec_has_id(rows, rows[j].id as int),
        spec_id_index(rows, rows[j].id as int) == j,
{
    assert(spec_has_id(rows, rows[j].id as int));
    let j2 = spec_id_index(rows, rows[j].id as int);
    assert(0 <= j2 < rows.len() && rows[j2].id == rows[j].id);
    if j2 != j {
        assert(rows[j2].id != rows[j].id);
        assert(false);
    }
}

/// Build the post-image of an existing fact row under observation `p`.
fn merge_rows(old_row: &Pipeline, p: Pipeline) -> (r: Pipeline)
    ensures
        r == spec_merge(*old_row, p),
{
    let keep_status = p.finished_at.is_none() && old_row.finished_at.is_some();
    let Pipeline {
        id: _,
        project_id: _,
        project_name: _,
        project_full_path: _,
        ref_name: _,
        sha,
        user_name,
        status,
        created_at: _,
        finished_at,
        duration,
        web_url,
    } = p;
    Pipeline {
        id: old_row.id,
        project_id: old_row.project_id,
        project_name: old_row.project_name.clone(),
        project_full_path: old_row.project_full_path.clone(),
        ref_name: old_row.ref_name.clone(),
        sha,
        user_name: if !user_name.as_str().is_empty() {
            user_name
        } else {
            old_row.user_name.clone()
        },
        status: if keep_status {
            old_row.status.clone()
        } else {
            status
        },
        created_at: old_row.created_at,
        finished_at: match finished_at {
            Some(f) => Some(f),
            None => old_row.finished_at,
        },
        duration: match duration {
            Some(d) => Some(d),
            None => old_row.duration,
        },
        web_url: match web_url {
            Some(u) => Some(u),
            None => match &old_row.web_url {
                Some(u) => Some(u.clone()),
                None => None,
            },
        },
    }
}

/// The single-writer store: fact rows, aggregate cells, and the watermark.
pub struct Store {
    pipelines: Vec<Pipeline>,
    stats: Vec<AggregateCell>,
    watermark: Option<i64>,
}

impl Store {
    pub closed spec fn facts(self) -> Seq<Pipeline> {
        self.pipelines@
    }

    pub closed spec fn cells(self) -> Seq<AggregateCell> {
        self.stats@
    }

    pub closed spec fn watermark_of(self) -> Option<i64> {
        self.watermark
    }

    /// The store invariant: unique ids, well-formed rows, unique cell keys,
    /// and an aggregate table that exactly matches the grouping of the fact
    /// table.
    pub open spec fn wf(self) -> bool {
        store_wf(self.facts(), self.cells())
    }

    /// A fresh, empty store.
    pub fn new() -> (r: Store)
        ensures
            r.wf(),
            r.facts() == Seq::<Pipeline>::empty(),
            r.cells() == Seq::<AggregateCell>::empty(),
            r.watermark_of() is None,
    {
        let r = Store { pipelines: Vec::new(), stats: Vec::new(), watermark: None };
        proof {
            assert(r.facts() =~= Seq::<Pipeline>::empty());
            assert(r.cells() =~= Seq::<AggregateCell>::empty());
        }
        r
    }

    /// The current poll watermark.
    pub fn get_watermark(&self) -> (r: Option<i64>)
        ensures
            r == self.watermark_of(),
    {
        self.watermark
    }

    /// Write the poll watermark.
    pub fn set_watermark(&mut self, ts: i64)
        ensures
            final(self).watermark_of() == Some(ts),
            final(self).facts() == old(self).facts(),
            final(self).cells() == old(self).cells(),
            old(self).wf() ==> final(self).wf(),
    {
        self.watermark = Some(ts);
    }

    /// Seed the watermark if it has never been written.
    pub fn init_watermark(&mut self, now: i64)
        ensures
            final(self).watermark_of() == if old(self).watermark_of() is None {
                Some(now)
            } else {
                old(self).watermark_of()
            },
            final(self).facts() == old(self).facts(),
            final(self).cells() == old(self).cells(),
            old(self).wf() ==> final(self).wf(),
    {
        if self.watermark.is_none() {
            self.watermark = Some(now);
        }
    }

    /// Index of the fact row with this id, if any.
    fn find_fact(&self, id: i64) -> (r: Option<usize>)
        ensures
            match r {
                Some(j) => j < self.facts().len() && self.facts()[j as int].id == id,
                None => !spec_has_id(self.facts(), id as int),
            },
    {
        let mut k: usize = 0;
        while k < self.pipelines.len()
            invariant
                k <= self.facts().len(),
                forall|j: int| 0 <= j < k ==> (#[trigger] self.facts()[j]).id != id,
            decreases self.facts().len() - k,
        {
            if self.pipelines[k].id == id {
                return Some(k);
            }
            k = k + 1;
        }
        None
    }

    /// Index of the cell with this key, if any.
    fn find_cell(&self, date: &String, pid: i64, status: &String) -> (r: Option<usize>)
        ensures
            match r {
                Some(i) => i < self.cells().len() && cell_key_is(
                    self.cells()[i as int],
                    date@,
                    pid as int,
                    status@,
                ),
                None => forall|i: int|
                    0 <= i < self.cells().len() ==> !cell_key_is(
                        #[trigger] self.cells()[i],
                        date@,
                        pid as int,
                        status@,
                    ),
            },
    {
        find_cell_in(&self.stats, date, pid, status)
    }

    /// Count one more row, with duration `dur`, into the cell for this key,
    /// creating the cell if it does not exist yet. On overflow nothing is
    /// changed.
    fn bump_cell(
        &mut self,
        date: &String,
        pid: i64,
        status: &String,
        name: &String,
        dur: Option<i64>,
    ) -> (r: Result<(), StoreError>)
        requires
            dur is Some ==> dur->Some_0 >= 0,
        ensures
            final(self).facts() == old(self).facts(),
            final(self).watermark_of() == old(self).watermark_of(),
            match r {
                Err(_) => final(self).cells() == old(self).cells() && (exists|ci: int|
                    0 <= ci < old(self).cells().len() && cell_key_is(
                        #[trigger] old(self).cells()[ci],
                        date@,
                        pid as int,
                        status@,
                    ) && (old(self).cells()[ci].count + 1 > i64::MAX as int || old(
                        self,
                    ).cells()[ci].total_duration + spec_opt_dur(dur) > i64::MAX as int || old(
                        self,
                    ).cells()[ci].count_with_duration + spec_opt_has(dur) > i64::MAX as int)),
                Ok(_) => (exists|ci: int|
                    0 <= ci < old(self).cells().len() && cell_key_is(
                        #[trigger] old(self).cells()[ci],
                        date@,
                        pid as int,
                        status@,
                    ) && final(self).cells() == old(self).cells().update(
                        ci,
                        spec_bumped_cell(old(self).cells()[ci], *name, dur),
                    ) && old(self).cells()[ci].count + 1 <= i64::MAX as int && old(
                        self,
                    ).cells()[ci].total_duration + spec_opt_dur(dur) <= i64::MAX as int && old(
                        self,
                    ).cells()[ci].count_with_duration + spec_opt_has(dur) <= i64::MAX as int) || ((forall|ci: int|
                    0 <= ci < old(self).cells().len() ==> !cell_key_is(
                        #[trigger] old(self).cells()[ci],
                        date@,
                        pid as int,
                        status@,
                    )) && final(self).cells() == old(self).cells().push(
                    (AggregateCell {
                        date: *date,
                        project_id: pid,
                        project_name: *name,
                        status: *status,
                        count: 1,
                        total_duration: spec_opt_dur(dur) as i64,
                        count_with_duration: spec_opt_has(dur) as i64,
                    }),
                )),
            },
    {
        let r = bump_cells(&mut self.stats, date, pid, status, name, dur);
        proof {
            assert(self.cells() == self.stats@);
            assert(old(self).cells() == old(self).stats@);
        }
        r
    }

    /// Number of fact rows.
    pub fn fact_count(&self) -> (r: usize)
        ensures
            r == self.facts().len(),
    {
        self.pipelines.len()
    }

    /// The fact row at index `i`.
    pub fn fact_at(&self, i: usize) -> (r: &Pipeline)
        requires
            i < self.facts().len(),
        ensures
            *r == self.facts()[i as int],
    {
        &self.pipelines[i]
    }

    /// Number of aggregate cells.
    pub fn cell_count(&self) -> (r: usize)
        ensures
            r == self.cells().len(),
    {
        self.stats.len()
    }

    /// The aggregate cell at index `i`.
    pub fn cell_at(&self, i: usize) -> (r: &AggregateCell)
        requires
            i < self.cells().len(),
        ensures
            *r == self.cells()[i as int],
    {
        &self.stats[i]
    }

    /// The fact row carrying this pipeline id, if any.
    pub fn get_fact(&self, id: i64) -> (r: Option<&Pipeline>)
        ensures
            match r {
                Some(row) => spec_has_id(self.facts(), id as int) && row.id == id && (exists|j: int|
                    0 <= j < self.facts().len() && *row == #[trigger] self.facts()[j]) && (self.wf()
                    ==> *row == self.facts()[spec_id_index(self.facts(), id as int)]),
                None => !spec_has_id(self.facts(), id as int),
            },
    {
        match self.find_fact(id) {
            Some(j) => {
                proof {
                    assert(spec_has_id(self.facts(), id as int));
                }
                let row = &self.pipelines[j];
                proof {
                    assert(*row == self.facts()[j as int]);
                    if self.wf() {
                        lemma_id_index_is(self.facts(), j as int);
                    }
                }
                Some(row)
            },
            None => None,
        }
    }

    /// The pipeline and project ids of up to `limit` fact rows whose user
    /// name is still empty. A batch smaller than `limit` is exhaustive.
    pub fn missing_user_rows(&self, limit: usize) -> (r: Vec<(i64, i64)>)
        ensures
            r@.len() <= limit,
            forall|k: int|
                0 <= k < r@.len() ==> missing_pair_of(self.facts(), #[trigger] r@[k]),
            r@.len() < limit ==> forall|j: int|
                0 <= j < self.facts().len() && (#[trigger] self.facts()[j]).user_name@.len() == 0
                    ==> exists|k: int| 0 <= k < r@.len() && (#[trigger] r@[k]).0
                    == self.facts()[j].id,
    {
        let mut out: Vec<(i64, i64)> = Vec::new();
        let mut n: usize = 0;
        while n < self.pipelines.len()
            invariant
                n <= self.facts().len(),
                out@.len() <= limit,
                forall|k: int|
                    0 <= k < out@.len() ==> missing_pair_of(self.facts(), #[trigger] out@[k]),
                out@.len() < limit ==> forall|j: int|
                    0 <= j < n && (#[trigger] self.facts()[j]).user_name@.len() == 0 ==> exists|k: int|
                        0 <= k < out@.len() && (#[trigger] out@[k]).0 == self.facts()[j].id,
            decreases self.facts().len() - n,
        {
            if self.pipelines[n].user_name.as_str().is_empty() {
                if out.len() == limit {
                    return out;
                }
                let ghost out0 = out@;
                out.push((self.pipelines[n].id, self.pipelines[n].project_id));
                proof {
                    assert(missing_pair_of(self.facts(), out@[out0.len() as int]));
                    assert forall|j: int|
                        0 <= j < n + 1 && (#[trigger] self.facts()[j]).user_name@.len() == 0
                            && out@.len() < limit implies exists|k: int|
                        0 <= k < out@.len() && (#[trigger] out@[k]).0 == self.facts()[j].id by {
                        if j < n {
                            if out0.len() < limit {
                                let k = choose|k: int|
                                    0 <= k < out0.len() && (#[trigger] out0[k]).0
                                        == self.facts()[j].id;
                                assert((out@[k]).0 == self.facts()[j].id);
                            }
                        } else {
                            assert((out@[out0.len() as int]).0 == self.facts()[j].id);
                        }
                    }
                }
            }
            n = n + 1;
        }
        out
    }

    /// Write a user name onto the fact row with this id, but only if the
    /// stored name is still empty; aggregates are untouched.
    pub fn set_user_name_if_empty(&mut self, id: i64, name: &String)
        requires
            old(self).wf(),
        ensures
            final(self).wf(),
            final(self).cells() == old(self).cells(),
            final(self).watermark_of() == old(self).watermark_of(),
            final(self).facts().len() == old(self).facts().len(),
            forall|j: int|
                0 <= j < old(self).facts().len() ==> {
                    let before = old(self).facts()[j];
                    let after = #[trigger] final(self).facts()[j];
                    if before.id == id && before.user_name@.len() == 0 {
                        after == (Pipeline { user_name: *name, ..before })
                    } else {
                        after == before
                    }
                },
    {
        let ghost rows0 = self.facts();
        let ghost cells0 = self.cells();
        let j = match self.find_fact(id) {
            Some(j) => j,
            None => {
                return ;
            },
        };
        if !self.pipelines[j].user_name.as_str().is_empty() {
            return ;
        }
        let updated = Pipeline {
            id: self.pipelines[j].id,
            project_id: self.pipelines[j].project_id,
            project_name: self.pipelines[j].project_name.clone(),
            project_full_path: self.pipelines[j].project_full_path.clone(),
            ref_name: self.pipelines[j].ref_name.clone(),
            sha: self.pipelines[j].sha.clone(),
            user_name: name.clone(),
            status: self.pipelines[j].status.clone(),
            created_at: self.pipelines[j].created_at,
            finished_at: self.pipelines[j].finished_at,
            duration: self.pipelines[j].duration,
            web_url: match &self.pipelines[j].web_url {
                Some(u) => Some(u.clone()),
                None => None,
            },
        };
        self.pipelines[j] = updated;
        proof {
            assert(self.facts() =~= rows0.update(j as int, updated));
            lemma_wf_user_update(rows0, cells0, j as int, updated);
            assert forall|jj: int| 0 <= jj < rows0.len() implies {
                let before = rows0[jj];
                let after = #[trigger] self.facts()[jj];
                if before.id == id && before.user_name@.len() == 0 {
                    after == (Pipeline { user_name: *name, ..before })
                } else {
                    after == before
                }
            } by {
                if jj != j as int {
                    assert(self.facts()[jj] == rows0[jj]);
                    if rows0[jj].id == id {
                        assert(rows0[j as int].id != rows0[jj].id);
                        assert(false);
                    }
                }
            }
        }
    }

    /// Insert a fact row not seen before and count it into its cell.
    fn upsert_insert(&mut self, p: Pipeline, p_date: String) -> (r: Result<(), StoreError>)
        requires
            old(self).wf(),
            fact_ok(p),
            !spec_has_id(old(self).facts(), p.id as int),
            p_date@ == spec_fact_date(p),
        ensures
            final(self).wf(),
            final(self).watermark_of() == old(self).watermark_of(),
            r is Ok <==> !spec_inc_overflow(
                old(self).facts(),
                spec_fact_date(p),
                p.project_id as int,
                p.status@,
                p.duration,
            ),
            r is Err ==> final(self).facts() == old(self).facts() && final(self).cells() == old(
                self,
            ).cells(),
            r is Ok ==> final(self).facts() == old(self).facts().push(p),
            r is Ok ==> forall|i: int|
                0 <= i < old(self).cells().len() ==> key_present(
                    final(self).cells(),
                    #[trigger] old(self).cells()[i],
                ),
            r is Ok ==> forall|i2: int|
                0 <= i2 < final(self).cells().len() ==> key_present(
                    old(self).cells(),
                    #[trigger] final(self).cells()[i2],
                ) || cell_key_is(
                    final(self).cells()[i2],
                    spec_fact_date(p),
                    p.project_id as int,
                    p.status@,
                ),
            r is Ok ==> (exists|ci: int|
                0 <= ci < old(self).cells().len() && cell_key_is(
                    #[trigger] old(self).cells()[ci],
                    spec_fact_date(p),
                    p.project_id as int,
                    p.status@,
                ) && final(self).cells() == old(self).cells().update(
                    ci,
                    spec_bumped_cell(old(self).cells()[ci], p.project_full_path, p.duration),
                )) || ((forall|ci: int|
                0 <= ci < old(self).cells().len() ==> !cell_key_is(
                    #[trigger] old(self).cells()[ci],
                    spec_fact_date(p),
                    p.project_id as int,
                    p.status@,
                )) && final(self).cells().len() == old(self).cells().len() + 1
                && final(self).cells() == old(self).cells().push(final(self).cells().last())
                && spec_new_cell_ok(
                final(self).cells().last(),
                spec_fact_date(p),
                p.project_id as int,
                p.status@,
                p.project_full_path,
                p.duration,
            )),
    {
        let ghost rows0 = self.facts();
        let ghost cells0 = self.cells();
        match self.bump_cell(&p_date, p.project_id, &p.status, &p.project_full_path, p.duration) {
            Err(e) => {
                proof {
                    let ci = choose|ci: int|
                        0 <= ci < cells0.len() && cell_key_is(
                            #[trigger] cells0[ci],
                            p_date@,
                            p.project_id as int,
                            p.status@,
                        ) && (cells0[ci].count + 1 > i64::MAX as int || cells0[ci].total_duration
                            + spec_opt_dur(p.duration) > i64::MAX as int
                            || cells0[ci].count_with_duration + spec_opt_has(p.duration)
                            > i64::MAX as int);
                    assert(cell_consistent(cells0[ci], rows0));
                }
                return Err(e);
            },
            Ok(_) => {},
        }
        let ghost cells1 = self.cells();
        self.pipelines.push(p);
        proof {
            assert(self.facts() =~= rows0.push(p));
            if exists|ci: int|
                0 <= ci < cells0.len() && cell_key_is(
                    #[trigger] cells0[ci],
                    p_date@,
                    p.project_id as int,
                    p.status@,
                ) {
                let ci = choose|ci: int|
                    0 <= ci < cells0.len() && cell_key_is(
                        #[trigger] cells0[ci],
                        p_date@,
                        p.project_id as int,
                        p.status@,
                    ) && cells1 == cells0.update(
                        ci,
                        spec_bumped_cell(cells0[ci], p.project_full_path, p.duration),
                    ) && cells0[ci].count + 1 <= i64::MAX as int && cells0[ci].total_duration
                        + spec_opt_dur(p.duration) <= i64::MAX as int
                        && cells0[ci].count_with_duration + spec_opt_has(p.duration)
                        <= i64::MAX as int;
                assert(cell_consistent(cells0[ci], rows0));
                lemma_wf_insert_bump(rows0, cells0, p, ci, p.project_full_path);
                assert forall|i: int| 0 <= i < cells0.len() implies key_present(
                    self.cells(),
                    #[trigger] cells0[i],
                ) by {
                    assert(same_cell_key(self.cells()[i], cells0[i]));
                }
                assert forall|i2: int| 0 <= i2 < self.cells().len() implies key_present(
                    cells0,
                    #[trigger] self.cells()[i2],
                ) || cell_key_is(
                    self.cells()[i2],
                    spec_fact_date(p),
                    p.project_id as int,
                    p.status@,
                ) by {
                    assert(same_cell_key(cells0[i2], self.cells()[i2]));
                }
            } else {
                lemma_no_cell_no_rows(rows0, cells0, p_date@, p.project_id as int, p.status@);
                lemma_wf_insert_push(
                    rows0,
                    cells0,
                    p,
                    cells1[cells0.len() as int],
                );
                assert forall|i: int| 0 <= i < cells0.len() implies key_present(
                    self.cells(),
                    #[trigger] cells0[i],
                ) by {
                    assert(same_cell_key(self.cells()[i], cells0[i]));
                }
                assert forall|i2: int| 0 <= i2 < self.cells().len() implies key_present(
                    cells0,
                    #[trigger] self.cells()[i2],
                ) || cell_key_is(
                    self.cells()[i2],
                    spec_fact_date(p),
                    p.project_id as int,
                    p.status@,
                ) by {
                    if i2 < cells0.len() {
                        assert(same_cell_key(cells0[i2], self.cells()[i2]));
                    }
                }
            }
        }
        Ok(())
    }

    /// Re-observation that stays in the same cell: only the duration
    /// measures of that one cell move.
    fn upsert_same(
        &mut self,
        j: usize,
        p_date: &String,
        merged: Pipeline,
        Ghost(p): Ghost<Pipeline>,
    ) -> (r: Result<(), StoreError>)
        requires
            old(self).wf(),
            fact_ok(p),
            j < old(self).facts().len(),
            old(self).facts()[j as int].id == p.id,
            merged == spec_merge(old(self).facts()[j as int], p),
            merged.status@ == old(self).facts()[j as int].status@,
            p_date@ == spec_fact_date(old(self).facts()[j as int]),
        ensures
            final(self).wf(),
            final(self).watermark_of() == old(self).watermark_of(),
            r is Ok <==> !(spec_dur_sum(
                old(self).facts(),
                p_date@,
                old(self).facts()[j as int].project_id as int,
                old(self).facts()[j as int].status@,
            ) - spec_row_dur(old(self).facts()[j as int]) + spec_row_dur(merged) > i64::MAX as int
                || spec_dur_count(
                old(self).facts(),
                p_date@,
                old(self).facts()[j as int].project_id as int,
                old(self).facts()[j as int].status@,
            ) - spec_row_has_dur(old(self).facts()[j as int]) + spec_row_has_dur(merged)
                > i64::MAX as int),
            r is Err ==> final(self).facts() == old(self).facts() && final(self).cells() == old(
                self,
            ).cells(),
            r is Ok ==> final(self).facts() == old(self).facts().update(j as int, merged),
            r is Ok ==> forall|i: int|
                0 <= i < old(self).cells().len() ==> key_present(
                    final(self).cells(),
                    #[trigger] old(self).cells()[i],
                ),
            r is Ok ==> forall|i2: int|
                0 <= i2 < final(self).cells().len() ==> key_present(
                    old(self).cells(),
                    #[trigger] final(self).cells()[i2],
                ),
            r is Ok ==> exists|ci: int|
                0 <= ci < old(self).cells().len() && cell_key_is(
                    #[trigger] old(self).cells()[ci],
                    p_date@,
                    old(self).facts()[j as int].project_id as int,
                    old(self).facts()[j as int].status@,
                ) && final(self).cells() == old(self).cells().update(
                    ci,
                    spec_adjusted_cell(old(self).cells()[ci], old(self).facts()[j as int], merged),
                ),
    {
        let ghost rows0 = self.facts();
        let ghost cells0 = self.cells();
        let ghost old_row = rows0[j as int];
        let pid = self.pipelines[j].project_id;
        let old_status = self.pipelines[j].status.clone();
        let old_d: i64 = match self.pipelines[j].duration {
            Some(v) => v,
            None => 0,
        };
        let old_has: i64 = if self.pipelines[j].duration.is_some() {
            1
        } else {
            0
        };
        let m_d: i64 = match merged.duration {
            Some(v) => v,
            None => 0,
        };
        let m_has: i64 = if merged.duration.is_some() {
            1
        } else {
            0
        };
        let ci = match self.find_cell(p_date, pid, &old_status) {
            Some(ci) => ci,
            None => {
                proof {
                    assert(row_covered(cells0, rows0, j as int));
                    assert(false);
                }
                return Err(StoreError::Overflow);
            },
        };
        proof {
            assert(cell_consistent(cells0[ci as int], rows0));
            assert(spec_in_cell(old_row, p_date@, pid as int, old_status@));
            lemma_group_member(rows0, j as int, p_date@, pid as int, old_status@);
        }
        let c_total = self.stats[ci].total_duration;
        let c_cwd = self.stats[ci].count_with_duration;
        let t1 = c_total - old_d;
        let w1 = c_cwd - old_has;
        if t1 > i64::MAX - m_d || w1 > i64::MAX - m_has {
            return Err(StoreError::Overflow);
        }
        self.stats[ci].total_duration = t1 + m_d;
        self.stats[ci].count_with_duration = w1 + m_has;
        self.pipelines[j] = merged;
        proof {
            assert(self.facts() =~= rows0.update(j as int, merged));
            assert(self.cells()[ci as int] == spec_adjusted_cell(
                cells0[ci as int],
                old_row,
                merged,
            ));
            assert(self.cells() =~= cells0.update(ci as int, self.cells()[ci as int]));
            lemma_wf_same(rows0, cells0, j as int, p, merged, ci as int, self.cells()[ci as int]);
            assert forall|i: int| 0 <= i < cells0.len() implies key_present(
                self.cells(),
                #[trigger] cells0[i],
            ) by {
                assert(same_cell_key(self.cells()[i], cells0[i]));
            }
            assert forall|i2: int| 0 <= i2 < self.cells().len() implies key_present(
                cells0,
                #[trigger] self.cells()[i2],
            ) by {
                assert(same_cell_key(cells0[i2], self.cells()[i2]));
            }
        }
        Ok(())
    }

    /// Re-observation whose status changed: the row moves from its old cell
    /// to a new one.
    fn upsert_move(
        &mut self,
        j: usize,
        p_date: &String,
        merged: Pipeline,
        incoming_path: String,
        Ghost(p): Ghost<Pipeline>,
    ) -> (r: Result<(), StoreError>)
        requires
            old(self).wf(),
            fact_ok(p),
            j < old(self).facts().len(),
            old(self).facts()[j as int].id == p.id,
            merged == spec_merge(old(self).facts()[j as int], p),
            merged.status@ != old(self).facts()[j as int].status@,
            p_date@ == spec_fact_date(old(self).facts()[j as int]),
        ensures
            final(self).wf(),
            final(self).watermark_of() == old(self).watermark_of(),
            r is Ok <==> !spec_inc_overflow(
                old(self).facts(),
                p_date@,
                old(self).facts()[j as int].project_id as int,
                merged.status@,
                merged.duration,
            ),
            r is Err ==> final(self).facts() == old(self).facts() && final(self).cells() == old(
                self,
            ).cells(),
            r is Ok ==> final(self).facts() == old(self).facts().update(j as int, merged),
            r is Ok ==> forall|i: int|
                0 <= i < old(self).cells().len() ==> key_present(
                    final(self).cells(),
                    #[trigger] old(self).cells()[i],
                ),
            r is Ok ==> forall|i2: int|
                0 <= i2 < final(self).cells().len() ==> key_present(
                    old(self).cells(),
                    #[trigger] final(self).cells()[i2],
                ) || cell_key_is(
                    final(self).cells()[i2],
                    p_date@,
                    old(self).facts()[j as int].project_id as int,
                    merged.status@,
                ),
            r is Ok ==> exists|oci: int|
                0 <= oci < old(self).cells().len() && cell_key_is(
                    #[trigger] old(self).cells()[oci],
                    p_date@,
                    old(self).facts()[j as int].project_id as int,
                    old(self).facts()[j as int].status@,
                ) && ({
                    let dec = old(self).cells().update(
                        oci,
                        spec_decremented_cell(old(self).cells()[oci], old(self).facts()[j as int]),
                    );
                    ||| (exists|nci: int|
                        0 <= nci < old(self).cells().len() && cell_key_is(
                            #[trigger] old(self).cells()[nci],
                            p_date@,
                            old(self).facts()[j as int].project_id as int,
                            merged.status@,
                        ) && final(self).cells() == dec.update(
                            nci,
                            spec_bumped_cell(old(self).cells()[nci], incoming_path, merged.duration),
                        ))
                    ||| ((forall|nci: int|
                        0 <= nci < old(self).cells().len() ==> !cell_key_is(
                            #[trigger] old(self).cells()[nci],
                            p_date@,
                            old(self).facts()[j as int].project_id as int,
                            merged.status@,
                        )) && final(self).cells().len() == old(self).cells().len() + 1
                        && final(self).cells() == dec.push(final(self).cells().last())
                        && spec_new_cell_ok(
                        final(self).cells().last(),
                        p_date@,
                        old(self).facts()[j as int].project_id as int,
                        merged.status@,
                        incoming_path,
                        merged.duration,
                    ))
                }),
    {
        let ghost rows0 = self.facts();
        let ghost cells0 = self.cells();
        let ghost old_row = rows0[j as int];
        let pid = self.pipelines[j].project_id;
        let old_status = self.pipelines[j].status.clone();
        let old_d: i64 = match self.pipelines[j].duration {
            Some(v) => v,
            None => 0,
        };
        let old_has: i64 = if self.pipelines[j].duration.is_some() {
            1
        } else {
            0
        };
        let m_d: i64 = match merged.duration {
            Some(v) => v,
            None => 0,
        };
        let m_has: i64 = if merged.duration.is_some() {
            1
        } else {
            0
        };
        let oci = match self.find_cell(p_date, pid, &old_status) {
            Some(oci) => oci,
            None => {
                proof {
                    assert(row_covered(cells0, rows0, j as int));
                    assert(false);
                }
                return Err(StoreError::Overflow);
            },
        };
        proof {
            assert(cell_consistent(cells0[oci as int], rows0));
            assert(spec_in_cell(old_row, p_date@, pid as int, old_status@));
            lemma_group_member(rows0, j as int, p_date@, pid as int, old_status@);
        }
        let nci_opt = self.find_cell(p_date, pid, &merged.status);
        match nci_opt {
            Some(nci) => {
                let n_count = self.stats[nci].count;
                let n_total = self.stats[nci].total_duration;
                let n_cwd = self.stats[nci].count_with_duration;
                proof {
                    assert(cell_consistent(cells0[nci as int], rows0));
                }
                if n_count == i64::MAX || n_total > i64::MAX - m_d || n_cwd > i64::MAX - m_has {
                    return Err(StoreError::Overflow);
                }
            },
            None => {
                proof {
                    lemma_no_cell_no_rows(rows0, cells0, p_date@, pid as int, merged.status@);
                }
            },
        }
        // all checks passed: apply the decrement, the increment, the row
        let o_count = self.stats[oci].count;
        let o_total = self.stats[oci].total_duration;
        let o_cwd = self.stats[oci].count_with_duration;
        self.stats[oci].count = o_count - 1;
        self.stats[oci].total_duration = o_total - old_d;
        self.stats[oci].count_with_duration = o_cwd - old_has;
        let ghost dec_cell = self.cells()[oci as int];
        match nci_opt {
            Some(nci) => {
                let n_count = self.stats[nci].count;
                let n_total = self.stats[nci].total_duration;
                let n_cwd = self.stats[nci].count_with_duration;
                self.stats[nci].count = n_count + 1;
                self.stats[nci].total_duration = n_total + m_d;
                self.stats[nci].count_with_duration = n_cwd + m_has;
                self.stats[nci].project_name = incoming_path;
                self.pipelines[j] = merged;
                proof {
                    assert(self.facts() =~= rows0.update(j as int, merged));
                    assert(dec_cell == spec_decremented_cell(cells0[oci as int], old_row));
                    assert(self.cells()[nci as int] == spec_bumped_cell(
                        cells0[nci as int],
                        incoming_path,
                        merged.duration,
                    ));
                    assert(self.cells() =~= cells0.update(oci as int, dec_cell).update(
                        nci as int,
                        self.cells()[nci as int],
                    ));
                    lemma_wf_move_bump(
                        rows0,
                        cells0,
                        j as int,
                        p,
                        merged,
                        oci as int,
                        nci as int,
                        dec_cell,
                        self.cells()[nci as int],
                    );
                    assert forall|i: int| 0 <= i < cells0.len() implies key_present(
                        self.cells(),
                        #[trigger] cells0[i],
                    ) by {
                        assert(same_cell_key(self.cells()[i], cells0[i]));
                    }
                    assert forall|i2: int| 0 <= i2 < self.cells().len() implies key_present(
                        cells0,
                        #[trigger] self.cells()[i2],
                    ) || cell_key_is(self.cells()[i2], p_date@, pid as int, merged.status@) by {
                        assert(same_cell_key(cells0[i2], self.cells()[i2]));
                    }
                }
                Ok(())
            },
            None => {
                let cell = AggregateCell {
                    date: p_date.clone(),
                    project_id: pid,
                    project_name: incoming_path,
                    status: merged.status.clone(),
                    count: 1,
                    total_duration: m_d,
                    count_with_duration: m_has,
                };
                self.stats.push(cell);
                self.pipelines[j] = merged;
                proof {
                    assert(self.facts() =~= rows0.update(j as int, merged));
                    assert(dec_cell == spec_decremented_cell(cells0[oci as int], old_row));
                    assert(spec_new_cell_ok(
                        self.cells()[cells0.len() as int],
                        p_date@,
                        pid as int,
                        merged.status@,
                        incoming_path,
                        merged.duration,
                    ));
                    assert(self.cells() =~= cells0.update(oci as int, dec_cell).push(
                        self.cells()[cells0.len() as int],
                    ));
                    lemma_wf_move_push(
                        rows0,
                        cells0,
                        j as int,
                        p,
                        merged,
                        oci as int,
                        dec_cell,
                        self.cells()[cells0.len() as int],
                    );
                    assert forall|i: int| 0 <= i < cells0.len() implies key_present(
                        self.cells(),
                        #[trigger] cells0[i],
                    ) by {
                        assert(same_cell_key(self.cells()[i], cells0[i]));
                    }
                    assert forall|i2: int| 0 <= i2 < self.cells().len() implies key_present(
                        cells0,
                        #[trigger] self.cells()[i2],
                    ) || cell_key_is(self.cells()[i2], p_date@, pid as int, merged.status@) by {
                        if i2 < cells0.len() {
                            assert(same_cell_key(cells0[i2], self.cells()[i2]));
                        }
                    }
                }
                Ok(())
            },
        }
    }

    /// Reconcile one observation against the fact table and adjust exactly
    /// the aggregate cells it affects, atomically: on failure nothing is
    /// changed. Fails exactly when an aggregate counter cannot take the
    /// addition.
    pub fn upsert(&mut self, p: Pipeline) -> (r: Result<(), StoreError>)
        requires
            old(self).wf(),
            fact_ok(p),
            forall|j: int|
                0 <= j < old(self).facts().len() && (#[trigger] old(self).facts()[j]).id == p.id
                    ==> old(self).facts()[j].created_at == p.created_at
                    && old(self).facts()[j].project_id == p.project_id,
        ensures
            final(self).wf(),
            final(self).watermark_of() == old(self).watermark_of(),
            r is Ok <==> !spec_upsert_overflow(old(self).facts(), p),
            r is Err ==> final(self).facts() == old(self).facts() && final(self).cells() == old(
                self,
            ).cells(),
            r is Ok ==> final(self).facts() == (if spec_has_id(old(self).facts(), p.id as int) {
                old(self).facts().update(
                    spec_id_index(old(self).facts(), p.id as int),
                    spec_merge(old(self).facts()[spec_id_index(old(self).facts(), p.id as int)], p),
                )
            } else {
                old(self).facts().push(p)
            }),
            r is Ok ==> forall|i: int|
                0 <= i < old(self).cells().len() ==> key_present(
                    final(self).cells(),
                    #[trigger] old(self).cells()[i],
                ),
            r is Ok ==> forall|i2: int|
                0 <= i2 < final(self).cells().len() ==> key_present(
                    old(self).cells(),
                    #[trigger] final(self).cells()[i2],
                ) || cell_key_is(
                    final(self).cells()[i2],
                    spec_fact_date(spec_result_row(old(self).facts(), p)),
                    p.project_id as int,
                    spec_result_row(old(self).facts(), p).status@,
                ),
            r is Ok ==> spec_upsert_cells(
                old(self).facts(),
                old(self).cells(),
                p,
                final(self).cells(),
            ),
    {
        let ghost rows0 = self.facts();
        let ghost cells0 = self.cells();
        let p_date = date_string_of_timestamp(p.created_at);
        match self.find_fact(p.id) {
            None => {
                let r = self.upsert_insert(p, p_date);
                proof {
                    if r is Ok {
                        assert(spec_upsert_cells(rows0, cells0, p, self.cells()));
                    }
                }
                r
            },
            Some(j) => {
                proof {
                    lemma_id_index_is(rows0, j as int);
                }
                let ghost p_g: Pipeline = p;
                let incoming_path = p.project_full_path.clone();
                let merged = merge_rows(&self.pipelines[j], p);
                proof {
                    assert(p_date@ == spec_fact_date(rows0[j as int]));
                }
                if merged.status == self.pipelines[j].status {
                    let r = self.upsert_same(j, &p_date, merged, Ghost(p_g));
                    proof {
                        if r is Ok {
                            assert(spec_upsert_cells(rows0, cells0, p, self.cells()));
                        }
                    }
                    r
                } else {
                    let r = self.upsert_move(j, &p_date, merged, incoming_path, Ghost(p_g));
                    proof {
                        if r is Ok {
                            assert(spec_upsert_cells(rows0, cells0, p, self.cells()));
                        }
                    }
                    r
                }
            },
        }
    }
}

/// Where no cell carries a key, no fact row is grouped under it.
pub proof fn lemma_no_cell_no_rows(
    rows: Seq<Pipeline>,
    cells: Seq<AggregateCell>,
    date: Seq<char>,
    pid: int,
    st: Seq<char>,
)
    requires
        cells_complete(cells, rows),
        forall|ci: int| 0 <= ci < cells.len() ==> !cell_key_is(#[trigger] cells[ci], date, pid, st),
    ensures
        spec_count(rows, date, pid, st) == 0,
        spec_dur_sum(rows, date, pid, st) == 0,
        spec_dur_count(rows, date, pid, st) == 0,
{
    lemma_cell_zero(rows, date, pid, st);
    if spec_count(rows, date, pid, st) >= 1 {
        lemma_count_pos_member(rows, date, pid, st);
        let jm = choose|jm: int|
            0 <= jm < rows.len() && spec_in_cell(#[trigger] rows[jm], date, pid, st);
        assert(row_covered(cells, rows, jm));
        let cw = choose|cw: int|
            0 <= cw < cells.len() && cell_key_is(
                #[trigger] cells[cw],
                spec_fact_date(rows[jm]),
                rows[jm].project_id as int,
                rows[jm].status@,
            );
        assert(cell_key_is(cells[cw], date, pid, st));
        assert(false);
    }
}

/// After inserting a new fact row and bumping the existing cell for its key,
/// the store invariant holds again.
#[verifier::rlimit(60)]
proof fn lemma_wf_insert_bump(
    rows0: Seq<Pipeline>,
    cells0: Seq<AggregateCell>,
    p: Pipeline,
    ci: int,
    name: String,
)
    requires
        store_wf(rows0, cells0),
        fact_ok(p),
        !spec_has_id(rows0, p.id as int),
        0 <= ci < cells0.len(),
        cell_key_is(cells0[ci], spec_fact_date(p), p.project_id as int, p.status@),
        cells0[ci].count + 1 <= i64::MAX as int,
        cells0[ci].total_duration + spec_opt_dur(p.duration) <= i64::MAX as int,
        cells0[ci].count_with_duration + spec_opt_has(p.duration) <= i64::MAX as int,
    ensures
        store_wf(rows0.push(p), cells0.update(ci, spec_bumped_cell(cells0[ci], name, p.duration))),
{
    let rows1 = rows0.push(p);
    let cells1 = cells0.update(ci, spec_bumped_cell(cells0[ci], name, p.duration));
    assert forall|i: int, jj: int| 0 <= i < jj < rows1.len() implies (#[trigger] rows1[i]).id != (
    #[trigger] rows1[jj]).id by {
        if jj == rows1.len() - 1 {
            if rows0[i].id == p.id {
                assert(spec_has_id(rows0, p.id as int));
            }
        }
    }
    assert forall|i: int| 0 <= i < rows1.len() implies fact_ok(#[trigger] rows1[i]) by {
        if i < rows0.len() {
            assert(fact_ok(rows0[i]));
        }
    }
    assert forall|i: int, jj: int| 0 <= i < jj < cells1.len() implies !same_cell_key(
        #[trigger] cells1[i],
        #[trigger] cells1[jj],
    ) by {
        assert(!same_cell_key(cells0[i], cells0[jj]));
        assert(same_cell_key(cells1[i], cells0[i]));
        assert(same_cell_key(cells1[jj], cells0[jj]));
    }
    assert forall|i: int| 0 <= i < cells1.len() implies cell_consistent(
        #[trigger] cells1[i],
        rows1,
    ) by {
        let c = cells1[i];
        lemma_group_push(rows0, p, c.date@, c.project_id as int, c.status@);
        assert(cell_consistent(cells0[i], rows0));
        if i == ci {
            assert(spec_in_cell(p, c.date@, c.project_id as int, c.status@));
        } else {
            if spec_in_cell(p, c.date@, c.project_id as int, c.status@) {
                if i < ci {
                    assert(!same_cell_key(cells0[i], cells0[ci]));
                } else {
                    assert(!same_cell_key(cells0[ci], cells0[i]));
                }
                assert(false);
            }
        }
    }
    assert forall|jr: int| 0 <= jr < rows1.len() implies #[trigger] row_covered(
        cells1,
        rows1,
        jr,
    ) by {
        if jr < rows0.len() {
            assert(row_covered(cells0, rows0, jr));
            let cw = choose|cw: int|
                0 <= cw < cells0.len() && cell_key_is(
                    #[trigger] cells0[cw],
                    spec_fact_date(rows0[jr]),
                    rows0[jr].project_id as int,
                    rows0[jr].status@,
                );
            assert(cell_key_is(
                cells1[cw],
                spec_fact_date(rows1[jr]),
                rows1[jr].project_id as int,
                rows1[jr].status@,
            ));
        } else {
            assert(cell_key_is(
                cells1[ci],
                spec_fact_date(rows1[jr]),
                rows1[jr].project_id as int,
                rows1[jr].status@,
            ));
        }
    }
}

/// After inserting a new fact row and creating a fresh cell for its key, the
/// store invariant holds again.
#[verifier::rlimit(60)]
proof fn lemma_wf_insert_push(
    rows0: Seq<Pipeline>,
    cells0: Seq<AggregateCell>,
    p: Pipeline,
    c_new: AggregateCell,
)
    requires
        store_wf(rows0, cells0),
        fact_ok(p),
        !spec_has_id(rows0, p.id as int),
        forall|ci: int|
            0 <= ci < cells0.len() ==> !cell_key_is(
                #[trigger] cells0[ci],
                spec_fact_date(p),
                p.project_id as int,
                p.status@,
            ),
        cell_key_is(c_new, spec_fact_date(p), p.project_id as int, p.status@),
        c_new.count == 1,
        c_new.total_duration == spec_opt_dur(p.duration),
        c_new.count_with_duration == spec_opt_has(p.duration),
    ensures
        store_wf(rows0.push(p), cells0.push(c_new)),
{
    let rows1 = rows0.push(p);
    let cells1 = cells0.push(c_new);
    lemma_no_cell_no_rows(rows0, cells0, spec_fact_date(p), p.project_id as int, p.status@);
    assert forall|i: int, jj: int| 0 <= i < jj < rows1.len() implies (#[trigger] rows1[i]).id != (
    #[trigger] rows1[jj]).id by {
        if jj == rows1.len() - 1 {
            if rows0[i].id == p.id {
                assert(spec_has_id(rows0, p.id as int));
            }
        }
    }
    assert forall|i: int| 0 <= i < rows1.len() implies fact_ok(#[trigger] rows1[i]) by {
        if i < rows0.len() {
            assert(fact_ok(rows0[i]));
        }
    }
    assert forall|i: int, jj: int| 0 <= i < jj < cells1.len() implies !same_cell_key(
        #[trigger] cells1[i],
        #[trigger] cells1[jj],
    ) by {
        if jj < cells0.len() {
            assert(!same_cell_key(cells0[i], cells0[jj]));
        } else {
            assert(!cell_key_is(cells0[i], spec_fact_date(p), p.project_id as int, p.status@));
        }
    }
    assert forall|i: int| 0 <= i < cells1.len() implies cell_consistent(
        #[trigger] cells1[i],
        rows1,
    ) by {
        let c = cells1[i];
        lemma_group_push(rows0, p, c.date@, c.project_id as int, c.status@);
        if i < cells0.len() {
            assert(cell_consistent(cells0[i], rows0));
            if spec_in_cell(p, c.date@, c.project_id as int, c.status@) {
                assert(cell_key_is(cells0[i], spec_fact_date(p), p.project_id as int, p.status@));
                assert(false);
            }
        } else {
            assert(c == c_new);
            assert(spec_in_cell(p, c.date@, c.project_id as int, c.status@));
        }
    }
    assert forall|jr: int| 0 <= jr < rows1.len() implies #[trigger] row_covered(
        cells1,
        rows1,
        jr,
    ) by {
        if jr < rows0.len() {
            assert(row_covered(cells0, rows0, jr));
            let cw = choose|cw: int|
                0 <= cw < cells0.len() && cell_key_is(
                    #[trigger] cells0[cw],
                    spec_fact_date(rows0[jr]),
                    rows0[jr].project_id as int,
                    rows0[jr].status@,
                );
            assert(cell_key_is(
                cells1[cw],
                spec_fact_date(rows1[jr]),
                rows1[jr].project_id as int,
                rows1[jr].status@,
            ));
        } else {
            assert(cell_key_is(
                cells1[cells0.len() as int],
                spec_fact_date(rows1[jr]),
                rows1[jr].project_id as int,
                rows1[jr].status@,
            ));
        }
    }
}

/// After a same-cell re-observation, with that one cell's duration measures
/// adjusted, the store invariant holds again.
#[verifier::rlimit(60)]
proof fn lemma_wf_same(
    rows0: Seq<Pipeline>,
    cells0: Seq<AggregateCell>,
    j: int,
    p: Pipeline,
    merged: Pipeline,
    ci: int,
    c2: AggregateCell,
)
    requires
        store_wf(rows0, cells0),
        fact_ok(p),
        0 <= j < rows0.len(),
        merged == spec_merge(rows0[j], p),
        merged.status@ == rows0[j].status@,
        0 <= ci < cells0.len(),
        cell_key_is(cells0[ci], spec_fact_date(rows0[j]), rows0[j].project_id as int, rows0[j].status@),
        same_cell_key(c2, cells0[ci]),
        c2.count == cells0[ci].count,
        c2.total_duration == cells0[ci].total_duration - spec_row_dur(rows0[j]) + spec_row_dur(
            merged,
        ),
        c2.count_with_duration == cells0[ci].count_with_duration - spec_row_has_dur(rows0[j])
            + spec_row_has_dur(merged),
    ensures
        store_wf(rows0.update(j, merged), cells0.update(ci, c2)),
{
    let rows1 = rows0.update(j, merged);
    let cells1 = cells0.update(ci, c2);
    assert(spec_fact_date(merged) == spec_fact_date(rows0[j]));
    assert forall|i: int, jj: int| 0 <= i < jj < rows1.len() implies (#[trigger] rows1[i]).id != (
    #[trigger] rows1[jj]).id by {
        assert(rows0[i].id != rows0[jj].id);
    }
    assert forall|i: int| 0 <= i < rows1.len() implies fact_ok(#[trigger] rows1[i]) by {
        assert(fact_ok(rows0[i]));
        assert(fact_ok(rows0[j]));
    }
    assert forall|i: int, jj: int| 0 <= i < jj < cells1.len() implies !same_cell_key(
        #[trigger] cells1[i],
        #[trigger] cells1[jj],
    ) by {
        assert(!same_cell_key(cells0[i], cells0[jj]));
        assert(same_cell_key(cells1[i], cells0[i]));
        assert(same_cell_key(cells1[jj], cells0[jj]));
    }
    assert forall|i: int| 0 <= i < cells1.len() implies cell_consistent(
        #[trigger] cells1[i],
        rows1,
    ) by {
        let c = cells1[i];
        lemma_group_update(rows0, j, merged, c.date@, c.project_id as int, c.status@);
        assert(cell_consistent(cells0[i], rows0));
        if i == ci {
            assert(spec_in_cell(rows0[j], c.date@, c.project_id as int, c.status@));
            assert(spec_in_cell(merged, c.date@, c.project_id as int, c.status@));
        } else {
            if spec_in_cell(rows0[j], c.date@, c.project_id as int, c.status@) || spec_in_cell(
                merged,
                c.date@,
                c.project_id as int,
                c.status@,
            ) {
                if i < ci {
                    assert(!same_cell_key(cells0[i], cells0[ci]));
                } else {
                    assert(!same_cell_key(cells0[ci], cells0[i]));
                }
                assert(false);
            }
        }
    }
    assert forall|jr: int| 0 <= jr < rows1.len() implies #[trigger] row_covered(
        cells1,
        rows1,
        jr,
    ) by {
        if jr != j {
            assert(row_covered(cells0, rows0, jr));
            let cw = choose|cw: int|
                0 <= cw < cells0.len() && cell_key_is(
                    #[trigger] cells0[cw],
                    spec_fact_date(rows0[jr]),
                    rows0[jr].project_id as int,
                    rows0[jr].status@,
                );
            assert(cell_key_is(
                cells1[cw],
                spec_fact_date(rows1[jr]),
                rows1[jr].project_id as int,
                rows1[jr].status@,
            ));
        } else {
            assert(cell_key_is(
                cells1[ci],
                spec_fact_date(rows1[jr]),
                rows1[jr].project_id as int,
                rows1[jr].status@,
            ));
        }
    }
}

/// After a status-changing re-observation, with the old cell decremented and
/// an existing new cell incremented, the store invariant holds again.
#[verifier::rlimit(100)]
proof fn lemma_wf_move_bump(
    rows0: Seq<Pipeline>,
    cells0: Seq<AggregateCell>,
    j: int,
    p: Pipeline,
    merged: Pipeline,
    oci: int,
    nci: int,
    dec: AggregateCell,
    inc: AggregateCell,
)
    requires
        store_wf(rows0, cells0),
        fact_ok(p),
        0 <= j < rows0.len(),
        merged == spec_merge(rows0[j], p),
        merged.status@ != rows0[j].status@,
        0 <= oci < cells0.len(),
        0 <= nci < cells0.len(),
        cell_key_is(cells0[oci], spec_fact_date(rows0[j]), rows0[j].project_id as int, rows0[j].status@),
        cell_key_is(cells0[nci], spec_fact_date(rows0[j]), rows0[j].project_id as int, merged.status@),
        same_cell_key(dec, cells0[oci]),
        dec.count == cells0[oci].count - 1,
        dec.total_duration == cells0[oci].total_duration - spec_row_dur(rows0[j]),
        dec.count_with_duration == cells0[oci].count_with_duration - spec_row_has_dur(rows0[j]),
        same_cell_key(inc, cells0[nci]),
        inc.count == cells0[nci].count + 1,
        inc.total_duration == cells0[nci].total_duration + spec_row_dur(merged),
        inc.count_with_duration == cells0[nci].count_with_duration + spec_row_has_dur(merged),
    ensures
        store_wf(rows0.update(j, merged), cells0.update(oci, dec).update(nci, inc)),
{
    let rows1 = rows0.update(j, merged);
    let cells1 = cells0.update(oci, dec).update(nci, inc);
    assert(spec_fact_date(merged) == spec_fact_date(rows0[j]));
    assert(oci != nci);
    assert forall|i: int, jj: int| 0 <= i < jj < rows1.len() implies (#[trigger] rows1[i]).id != (
    #[trigger] rows1[jj]).id by {
        assert(rows0[i].id != rows0[jj].id);
    }
    assert forall|i: int| 0 <= i < rows1.len() implies fact_ok(#[trigger] rows1[i]) by {
        assert(fact_ok(rows0[i]));
        assert(fact_ok(rows0[j]));
    }
    assert forall|i: int| 0 <= i < cells1.len() implies same_cell_key(
        #[trigger] cells1[i],
        cells0[i],
    ) && same_cell_key(cells0[i], cells1[i]) by {}
    assert forall|i: int, jj: int| 0 <= i < jj < cells1.len() implies !same_cell_key(
        #[trigger] cells1[i],
        #[trigger] cells1[jj],
    ) by {
        assert(!same_cell_key(cells0[i], cells0[jj]));
        assert(same_cell_key(cells1[i], cells0[i]));
        assert(same_cell_key(cells1[jj], cells0[jj]));
    }
    assert forall|i: int| 0 <= i < cells1.len() implies cell_consistent(
        #[trigger] cells1[i],
        rows1,
    ) by {
        let c = cells1[i];
        lemma_group_update(rows0, j, merged, c.date@, c.project_id as int, c.status@);
        assert(cell_consistent(cells0[i], rows0));
        if i == oci {
            assert(spec_in_cell(rows0[j], c.date@, c.project_id as int, c.status@));
            assert(!spec_in_cell(merged, c.date@, c.project_id as int, c.status@));
        } else if i == nci {
            assert(!spec_in_cell(rows0[j], c.date@, c.project_id as int, c.status@));
            assert(spec_in_cell(merged, c.date@, c.project_id as int, c.status@));
        } else {
            if spec_in_cell(rows0[j], c.date@, c.project_id as int, c.status@) {
                if i < oci {
                    assert(!same_cell_key(cells0[i], cells0[oci]));
                } else {
                    assert(!same_cell_key(cells0[oci], cells0[i]));
                }
                assert(false);
            }
            if spec_in_cell(merged, c.date@, c.project_id as int, c.status@) {
                if i < nci {
                    assert(!same_cell_key(cells0[i], cells0[nci]));
                } else {
                    assert(!same_cell_key(cells0[nci], cells0[i]));
                }
                assert(false);
            }
        }
    }
    assert forall|jr: int| 0 <= jr < rows1.len() implies #[trigger] row_covered(
        cells1,
        rows1,
        jr,
    ) by {
        if jr != j {
            assert(row_covered(cells0, rows0, jr));
            let cw = choose|cw: int|
                0 <= cw < cells0.len() && cell_key_is(
                    #[trigger] cells0[cw],
                    spec_fact_date(rows0[jr]),
                    rows0[jr].project_id as int,
                    rows0[jr].status@,
                );
            assert(cell_key_is(
                cells1[cw],
                spec_fact_date(rows1[jr]),
                rows1[jr].project_id as int,
                rows1[jr].status@,
            ));
        } else {
            assert(cell_key_is(
                cells1[nci],
                spec_fact_date(rows1[jr]),
                rows1[jr].project_id as int,
                rows1[jr].status@,
            ));
        }
    }
}

/// After a status-changing re-observation, with the old cell decremented and
/// a fresh cell created for the new status, the store invariant holds again.
#[verifier::rlimit(100)]
proof fn lemma_wf_move_push(
    rows0: Seq<Pipeline>,
    cells0: Seq<AggregateCell>,
    j: int,
    p: Pipeline,
    merged: Pipeline,
    oci: int,
    dec: AggregateCell,
    c_new: AggregateCell,
)
    requires
        store_wf(rows0, cells0),
        fact_ok(p),
        0 <= j < rows0.len(),
        merged == spec_merge(rows0[j], p),
        merged.status@ != rows0[j].status@,
        0 <= oci < cells0.len(),
        cell_key_is(cells0[oci], spec_fact_date(rows0[j]), rows0[j].project_id as int, rows0[j].status@),
        forall|ci: int|
            0 <= ci < cells0.len() ==> !cell_key_is(
                #[trigger] cells0[ci],
                spec_fact_date(rows0[j]),
                rows0[j].project_id as int,
                merged.status@,
            ),
        same_cell_key(dec, cells0[oci]),
        dec.count == cells0[oci].count - 1,
        dec.total_duration == cells0[oci].total_duration - spec_row_dur(rows0[j]),
        dec.count_with_duration == cells0[oci].count_with_duration - spec_row_has_dur(rows0[j]),
        cell_key_is(c_new, spec_fact_date(rows0[j]), rows0[j].project_id as int, merged.status@),
        c_new.count == 1,
        c_new.total_duration == spec_row_dur(merged),
        c_new.count_with_duration == spec_row_has_dur(merged),
    ensures
        store_wf(rows0.update(j, merged), cells0.update(oci, dec).push(c_new)),
{
    let rows1 = rows0.update(j, merged);
    let cells1 = cells0.update(oci, dec).push(c_new);
    assert(spec_fact_date(merged) == spec_fact_date(rows0[j]));
    lemma_no_cell_no_rows(
        rows0,
        cells0,
        spec_fact_date(rows0[j]),
        rows0[j].project_id as int,
        merged.status@,
    );
    assert forall|i: int, jj: int| 0 <= i < jj < rows1.len() implies (#[trigger] rows1[i]).id != (
    #[trigger] rows1[jj]).id by {
        assert(rows0[i].id != rows0[jj].id);
    }
    assert forall|i: int| 0 <= i < rows1.len() implies fact_ok(#[trigger] rows1[i]) by {
        assert(fact_ok(rows0[i]));
        assert(fact_ok(rows0[j]));
    }
    assert forall|i: int, jj: int| 0 <= i < jj < cells1.len() implies !same_cell_key(
        #[trigger] cells1[i],
        #[trigger] cells1[jj],
    ) by {
        if jj < cells0.len() {
            assert(!same_cell_key(cells0[i], cells0[jj]));
            assert(same_cell_key(cells1[i], cells0[i]));
            assert(same_cell_key(cells1[jj], cells0[jj]));
        } else {
            assert(same_cell_key(cells1[i], cells0[i]));
            assert(!cell_key_is(
                cells0[i],
                spec_fact_date(rows0[j]),
                rows0[j].project_id as int,
                merged.status@,
            ));
        }
    }
    assert forall|i: int| 0 <= i < cells1.len() implies cell_consistent(
        #[trigger] cells1[i],
        rows1,
    ) by {
        let c = cells1[i];
        lemma_group_update(rows0, j, merged, c.date@, c.project_id as int, c.status@);
        if i < cells0.len() {
            assert(cell_consistent(cells0[i], rows0));
            if i == oci {
                assert(spec_in_cell(rows0[j], c.date@, c.project_id as int, c.status@));
                assert(!spec_in_cell(merged, c.date@, c.project_id as int, c.status@));
            } else {
                if spec_in_cell(rows0[j], c.date@, c.project_id as int, c.status@) {
                    if i < oci {
                        assert(!same_cell_key(cells0[i], cells0[oci]));
                    } else {
                        assert(!same_cell_key(cells0[oci], cells0[i]));
                    }
                    assert(false);
                }
                if spec_in_cell(merged, c.date@, c.project_id as int, c.status@) {
                    assert(cell_key_is(
                        cells0[i],
                        spec_fact_date(rows0[j]),
                        rows0[j].project_id as int,
                        merged.status@,
                    ));
                    assert(false);
                }
            }
        } else {
            assert(c == c_new);
            assert(!spec_in_cell(rows0[j], c.date@, c.project_id as int, c.status@));
            assert(spec_in_cell(merged, c.date@, c.project_id as int, c.status@));
        }
    }
    assert forall|jr: int| 0 <= jr < rows1.len() implies #[trigger] row_covered(
        cells1,
        rows1,
        jr,
    ) by {
        if jr != j {
            assert(row_covered(cells0, rows0, jr));
            let cw = choose|cw: int|
                0 <= cw < cells0.len() && cell_key_is(
                    #[trigger] cells0[cw],
                    spec_fact_date(rows0[jr]),
                    rows0[jr].project_id as int,
                    rows0[jr].status@,
                );
            assert(cell_key_is(
                cells1[cw],
                spec_fact_date(rows1[jr]),
                rows1[jr].project_id as int,
                rows1[jr].status@,
            ));
        } else {
            assert(cell_key_is(
                cells1[cells0.len() as int],
                spec_fact_date(rows1[jr]),
                rows1[jr].project_id as int,
                rows1[jr].status@,
            ));
        }
    }
}


/// Law: for every cell of a well-formed store, `count` is the number of
/// fact rows grouped into its (date, project, status) triple, and
/// `total_duration` and `count_with_duration` are the sum and the count of
/// their present durations.
pub proof fn lemma_cell_matches_facts(s: Store, i: int)
    requires
        s.wf(),
        0 <= i < s.cells().len(),
    ensures
        s.cells()[i].count == spec_count(
            s.facts(),
            s.cells()[i].date@,
            s.cells()[i].project_id as int,
            s.cells()[i].status@,
        ),
        s.cells()[i].total_duration == spec_dur_sum(
            s.facts(),
            s.cells()[i].date@,
            s.cells()[i].project_id as int,
            s.cells()[i].status@,
        ),
        s.cells()[i].count_with_duration == spec_dur_count(
            s.facts(),
            s.cells()[i].date@,
            s.cells()[i].project_id as int,
            s.cells()[i].status@,
        ),
{
    assert(cell_consistent(s.cells()[i], s.facts()));
}

/// Law: in a well-formed store, every cell has
/// `0 <= count_with_duration <= count` and `total_duration >= 0`.
pub proof fn lemma_cell_bounds(s: Store, i: int)
    requires
        s.wf(),
        0 <= i < s.cells().len(),
    ensures
        0 <= s.cells()[i].count_with_duration <= s.cells()[i].count,
        s.cells()[i].total_duration >= s.cells()[i].count_with_duration >= 0,
{
    let c = s.cells()[i];
    assert(cell_consistent(c, s.facts()));
    lemma_group_bounds(s.facts(), c.date@, c.project_id as int, c.status@);
}

/// Law: a late non-terminal re-observation of a finished pipeline, carrying
/// no duration of its own, leaves the aggregate table exactly as it was.
pub proof fn lemma_stale_reobservation_keeps_cells(
    rows0: Seq<Pipeline>,
    cells0: Seq<AggregateCell>,
    p: Pipeline,
    cells1: Seq<AggregateCell>,
)
    requires
        spec_upsert_cells(rows0, cells0, p, cells1),
        spec_has_id(rows0, p.id as int),
        rows0[spec_id_index(rows0, p.id as int)].finished_at is Some,
        p.finished_at is None,
        p.duration is None,
    ensures
        cells1 == cells0,
{
    let old_row = rows0[spec_id_index(rows0, p.id as int)];
    let merged = spec_merge(old_row, p);
    assert(merged.status == old_row.status);
    assert(merged.duration == old_row.duration);
    let date = spec_fact_date(old_row);
    let pid = old_row.project_id as int;
    let ci = choose|ci: int|
        0 <= ci < cells0.len() && cell_key_is(#[trigger] cells0[ci], date, pid, old_row.status@)
            && cells1 == cells0.update(ci, spec_adjusted_cell(cells0[ci], old_row, merged));
    assert(spec_adjusted_cell(cells0[ci], old_row, merged) == cells0[ci]);
    assert(cells1 =~= cells0);
}

/// Law: the bulk recompute is a fixed point. On a well-formed store whose
/// grouped cells already carry the path of their group's last row, an
/// aggregate table meeting the recompute's contract agrees with the old one
/// cell by cell: every field is value-identical and the denormalized name
/// is text-identical.
pub proof fn lemma_rebuild_fixed_point(
    rows: Seq<Pipeline>,
    cells0: Seq<AggregateCell>,
    cells1: Seq<AggregateCell>,
)
    requires
        store_wf(rows, cells0),
        cells1.len() == cells0.len(),
        forall|i: int|
            0 <= i < cells0.len() ==> (#[trigger] cells1[i]).count == cells0[i].count
                && cells1[i].total_duration == cells0[i].total_duration
                && cells1[i].count_with_duration == cells0[i].count_with_duration
                && cells1[i].date == cells0[i].date && cells1[i].project_id == cells0[i].project_id
                && cells1[i].status == cells0[i].status,
        forall|i: int|
            0 <= i < cells0.len() ==> (#[trigger] cells1[i]).project_name@ == (if spec_count(
                rows,
                cells0[i].date@,
                cells0[i].project_id as int,
                cells0[i].status@,
            ) >= 1 {
                spec_last_group_path(
                    rows,
                    cells0[i].date@,
                    cells0[i].project_id as int,
                    cells0[i].status@,
                )
            } else {
                cells0[i].project_name@
            }),
        forall|i: int|
            0 <= i < cells0.len() && spec_count(
                rows,
                (#[trigger] cells0[i]).date@,
                cells0[i].project_id as int,
                cells0[i].status@,
            ) >= 1 ==> cells0[i].project_name@ == spec_last_group_path(
                rows,
                cells0[i].date@,
                cells0[i].project_id as int,
                cells0[i].status@,
            ),
    ensures
        forall|i: int|
            0 <= i < cells0.len() ==> (#[trigger] cells1[i]).count == cells0[i].count
                && cells1[i].total_duration == cells0[i].total_duration
                && cells1[i].count_with_duration == cells0[i].count_with_duration
                && cells1[i].date == cells0[i].date && cells1[i].project_id == cells0[i].project_id
                && cells1[i].status == cells0[i].status && cells1[i].project_name@
                == cells0[i].project_name@,
{
}

/// Law: an observation touches at most the two cells its keys name. Every
/// cell whose key is neither the post-image row's key nor (for a
/// re-observation) the old row's key keeps its exact value, in place, and
/// at most one cell is appended.
#[verifier::rlimit(60)]
pub proof fn lemma_upsert_touches_at_most_two(
    rows0: Seq<Pipeline>,
    cells0: Seq<AggregateCell>,
    p: Pipeline,
    cells1: Seq<AggregateCell>,
)
    requires
        spec_upsert_cells(rows0, cells0, p, cells1),
    ensures
        cells0.len() <= cells1.len() <= cells0.len() + 1,
        forall|i: int|
            0 <= i < cells0.len() ==> #[trigger] cells1[i] == cells0[i] || cell_key_is(
                cells0[i],
                spec_fact_date(spec_result_row(rows0, p)),
                spec_result_row(rows0, p).project_id as int,
                spec_result_row(rows0, p).status@,
            ) || (spec_has_id(rows0, p.id as int) && cell_key_is(
                cells0[i],
                spec_fact_date(rows0[spec_id_index(rows0, p.id as int)]),
                rows0[spec_id_index(rows0, p.id as int)].project_id as int,
                rows0[spec_id_index(rows0, p.id as int)].status@,
            )),
{
    let rp = spec_result_row(rows0, p);
    if spec_has_id(rows0, p.id as int) {
        let old_row = rows0[spec_id_index(rows0, p.id as int)];
        let merged = spec_merge(old_row, p);
        let date = spec_fact_date(old_row);
        let pid = old_row.project_id as int;
        assert(spec_fact_date(rp) == date);
        if merged.status@ == old_row.status@ {
            let ci = choose|ci: int|
                0 <= ci < cells0.len() && cell_key_is(#[trigger] cells0[ci], date, pid, old_row.status@)
                    && cells1 == cells0.update(ci, spec_adjusted_cell(cells0[ci], old_row, merged));
            assert forall|i: int|
                0 <= i < cells0.len() implies #[trigger] cells1[i] == cells0[i] || cell_key_is(
                cells0[i],
                spec_fact_date(rp),
                rp.project_id as int,
                rp.status@,
            ) || cell_key_is(cells0[i], date, pid, old_row.status@) by {
                if i != ci {
                    assert(cells1[i] == cells0[i]);
                }
            }
        } else {
            let oci = choose|oci: int|
                0 <= oci < cells0.len() && cell_key_is(#[trigger] cells0[oci], date, pid, old_row.status@)
                    && ({
                    let dec = cells0.update(oci, spec_decremented_cell(cells0[oci], old_row));
                    ||| (exists|nci: int|
                        0 <= nci < cells0.len() && cell_key_is(
                            #[trigger] cells0[nci],
                            date,
                            pid,
                            merged.status@,
                        ) && cells1 == dec.update(
                            nci,
                            spec_bumped_cell(cells0[nci], p.project_full_path, merged.duration),
                        ))
                    ||| ((forall|nci: int|
                        0 <= nci < cells0.len() ==> !cell_key_is(
                            #[trigger] cells0[nci],
                            date,
                            pid,
                            merged.status@,
                        )) && cells1.len() == cells0.len() + 1 && cells1 == dec.push(cells1.last())
                        && spec_new_cell_ok(
                        cells1.last(),
                        date,
                        pid,
                        merged.status@,
                        p.project_full_path,
                        merged.duration,
                    ))
                });
            let dec = cells0.update(oci, spec_decremented_cell(cells0[oci], old_row));
            if exists|nci: int|
                0 <= nci < cells0.len() && cell_key_is(#[trigger] cells0[nci], date, pid, merged.status@)
                    && cells1 == dec.update(
                    nci,
                    spec_bumped_cell(cells0[nci], p.project_full_path, merged.duration),
                ) {
                let nci = choose|nci: int|
                    0 <= nci < cells0.len() && cell_key_is(
                        #[trigger] cells0[nci],
                        date,
                        pid,
                        merged.status@,
                    ) && cells1 == dec.update(
                        nci,
                        spec_bumped_cell(cells0[nci], p.project_full_path, merged.duration),
                    );
                assert forall|i: int|
                    0 <= i < cells0.len() implies #[trigger] cells1[i] == cells0[i] || cell_key_is(
                    cells0[i],
                    spec_fact_date(rp),
                    rp.project_id as int,
                    rp.status@,
                ) || cell_key_is(cells0[i], date, pid, old_row.status@) by {
                    if i != oci && i != nci {
                        assert(cells1[i] == dec[i]);
                        assert(dec[i] == cells0[i]);
                    }
                    if i == nci {
                        assert(cell_key_is(cells0[i], spec_fact_date(rp), rp.project_id as int, rp.status@));
                    }
                }
            } else {
                assert forall|i: int|
                    0 <= i < cells0.len() implies #[trigger] cells1[i] == cells0[i] || cell_key_is(
                    cells0[i],
                    spec_fact_date(rp),
                    rp.project_id as int,
                    rp.status@,
                ) || cell_key_is(cells0[i], date, pid, old_row.status@) by {
                    if i != oci {
                        assert(cells1[i] == dec[i]);
                        assert(dec[i] == cells0[i]);
                    }
                }
            }
        }
    } else {
        assert(rp == p);
        if exists|ci: int|
            0 <= ci < cells0.len() && cell_key_is(
                #[trigger] cells0[ci],
                spec_fact_date(p),
                p.project_id as int,
                p.status@,
            ) && cells1 == cells0.update(
                ci,
                spec_bumped_cell(cells0[ci], p.project_full_path, p.duration),
            ) {
            let ci = choose|ci: int|
                0 <= ci < cells0.len() && cell_key_is(
                    #[trigger] cells0[ci],
                    spec_fact_date(p),
                    p.project_id as int,
                    p.status@,
                ) && cells1 == cells0.update(
                    ci,
                    spec_bumped_cell(cells0[ci], p.project_full_path, p.duration),
                );
            assert forall|i: int|
                0 <= i < cells0.len() implies #[trigger] cells1[i] == cells0[i] || cell_key_is(
                cells0[i],
                spec_fact_date(rp),
                rp.project_id as int,
                rp.status@,
            ) by {
                if i != ci {
                    assert(cells1[i] == cells0[i]);
                }
            }
        } else {
            assert forall|i: int| 0 <= i < cells0.len() implies #[trigger] cells1[i]
                == cells0[i] by {
                assert(cells1[i] == cells0.push(cells1.last())[i]);
            }
        }
    }
}

/// Law: a non-terminal re-observation of a terminal pipeline changes
/// neither its status nor its finish time.
pub proof fn lemma_terminal_status_kept(old_row: Pipeline, p: Pipeline)
    requires
        old_row.finished_at is Some,
        p.finished_at is None,
    ensures
        spec_merge(old_row, p).status == old_row.status,
        spec_merge(old_row, p).finished_at == old_row.finished_at,
{
}

/// The project path of the last fact row grouped into the cell
/// (`date`, `pid`, `st`), in table order; empty where the cell has none.
pub open spec fn spec_last_group_path(
    rows: Seq<Pipeline>,
    date: Seq<char>,
    pid: int,
    st: Seq<char>,
) -> Seq<char>
    decreases rows.len(),
{
    if rows.len() == 0 {
        Seq::<char>::empty()
    } else if spec_in_cell(rows.last(), date, pid, st) {
        rows.last().project_full_path@
    } else {
        spec_last_group_path(rows.drop_last(), date, pid, st)
    }
}

proof fn lemma_last_group_path_push(
    rows: Seq<Pipeline>,
    p: Pipeline,
    date: Seq<char>,
    pid: int,
    st: Seq<char>,
)
    ensures
        spec_last_group_path(rows.push(p), date, pid, st) == if spec_in_cell(p, date, pid, st) {
            p.project_full_path@
        } else {
            spec_last_group_path(rows, date, pid, st)
        },
{
    assert(rows.push(p).drop_last() =~= rows);
    assert(rows.push(p).last() == p);
}

/// Whether one of the first `m` recomputed cells carries the key of `c`.
pub open spec fn fresh_covers(fresh: Seq<AggregateCell>, m: int, c: AggregateCell) -> bool {
    exists|fm: int| 0 <= fm < m && same_cell_key(#[trigger] fresh[fm], c)
}

/// Bulk recompute of the aggregate table from the fact table, in one
/// transaction. On a consistent store this is a fixed point: every cell
/// keeps its key, its count, its duration sum and its duration count; only
/// the denormalized project name may be refreshed from the fact rows.
#[verifier::rlimit(100)]
pub fn rebuild_aggregates(s: &mut Store)
    requires
        old(s).wf(),
    ensures
        final(s).wf(),
        final(s).facts() == old(s).facts(),
        final(s).watermark_of() == old(s).watermark_of(),
        final(s).cells().len() == old(s).cells().len(),
        forall|i: int|
            0 <= i < old(s).cells().len() ==> same_cell_key(
                #[trigger] final(s).cells()[i],
                old(s).cells()[i],
            ) && final(s).cells()[i].count == old(s).cells()[i].count
                && final(s).cells()[i].total_duration == old(s).cells()[i].total_duration
                && final(s).cells()[i].count_with_duration == old(s).cells()[i].count_with_duration,
        forall|i: int|
            0 <= i < old(s).cells().len() ==> (#[trigger] final(s).cells()[i]).date == old(
                s,
            ).cells()[i].date && final(s).cells()[i].project_id == old(s).cells()[i].project_id
                && final(s).cells()[i].status == old(s).cells()[i].status,
        forall|i: int|
            0 <= i < old(s).cells().len() ==> (#[trigger] final(s).cells()[i]).project_name@
                == (if spec_count(
                old(s).facts(),
                old(s).cells()[i].date@,
                old(s).cells()[i].project_id as int,
                old(s).cells()[i].status@,
            ) >= 1 {
                spec_last_group_path(
                    old(s).facts(),
                    old(s).cells()[i].date@,
                    old(s).cells()[i].project_id as int,
                    old(s).cells()[i].status@,
                )
            } else {
                old(s).cells()[i].project_name@
            }),
{
    let ghost rows = s.facts();
    let ghost cells0 = s.cells();
    let mut fresh: Vec<AggregateCell> = Vec::new();
    let mut n: usize = 0;
    proof {
        assert(rows.take(0) =~= Seq::<Pipeline>::empty());
    }
    while n < s.pipelines.len()
        invariant
            old(s).wf(),
            rows == s.facts(),
            cells0 == s.cells(),
            rows == old(s).facts(),
            cells0 == old(s).cells(),
            n <= rows.len(),
            store_wf(rows.take(n as int), fresh@),
            forall|ci: int| 0 <= ci < fresh@.len() ==> (#[trigger] fresh@[ci]).count >= 1,
            forall|ci: int|
                0 <= ci < fresh@.len() ==> (#[trigger] fresh@[ci]).project_name@
                    == spec_last_group_path(
                    rows.take(n as int),
                    fresh@[ci].date@,
                    fresh@[ci].project_id as int,
                    fresh@[ci].status@,
                ),
        decreases rows.len() - n,
    {
        let ghost fresh0 = fresh@;
        let ghost prefix = rows.take(n as int);
        let ghost p = rows[n as int];
        let date = date_string_of_timestamp(s.pipelines[n].created_at);
        proof {
            assert(fact_ok(p));
            assert(date@ == spec_fact_date(p));
            assert forall|i: int| 0 <= i < prefix.len() implies #[trigger] prefix[i] == rows[i] by {}
            assert(!spec_has_id(prefix, p.id as int));
            assert(row_covered(cells0, rows, n as int));
            let cw = choose|cw: int|
                0 <= cw < cells0.len() && cell_key_is(
                    #[trigger] cells0[cw],
                    spec_fact_date(p),
                    p.project_id as int,
                    p.status@,
                );
            assert(cell_consistent(cells0[cw], rows));
            lemma_take_le(rows, n as int + 1, date@, p.project_id as int, p.status@);
            assert(rows.take(n as int + 1) =~= prefix.push(p));
            lemma_group_push(prefix, p, date@, p.project_id as int, p.status@);
            assert(spec_count(prefix, date@, p.project_id as int, p.status@) + 1 <= i64::MAX as int);
            assert(spec_dur_sum(prefix, date@, p.project_id as int, p.status@) + spec_row_dur(p)
                <= i64::MAX as int);
            assert(spec_dur_count(prefix, date@, p.project_id as int, p.status@) + spec_row_has_dur(
                p,
            ) <= i64::MAX as int);
        }
        let r = bump_cells(
            &mut fresh,
            &date,
            s.pipelines[n].project_id,
            &s.pipelines[n].status,
            &s.pipelines[n].project_full_path,
            s.pipelines[n].duration,
        );
        proof {
            match r {
                Err(_) => {
                    let ci = choose|ci: int|
                        0 <= ci < fresh0.len() && cell_key_is(
                            #[trigger] fresh0[ci],
                            date@,
                            p.project_id as int,
                            p.status@,
                        ) && (fresh0[ci].count + 1 > i64::MAX as int || fresh0[ci].total_duration
                            + spec_opt_dur(p.duration) > i64::MAX as int
                            || fresh0[ci].count_with_duration + spec_opt_has(p.duration)
                            > i64::MAX as int);
                    assert(cell_consistent(fresh0[ci], prefix));
                    assert(false);
                },
                Ok(_) => {
                    if exists|ci: int|
                        0 <= ci < fresh0.len() && cell_key_is(
                            #[trigger] fresh0[ci],
                            date@,
                            p.project_id as int,
                            p.status@,
                        ) {
                        let ci = choose|ci: int|
                            0 <= ci < fresh0.len() && cell_key_is(
                                #[trigger] fresh0[ci],
                                date@,
                                p.project_id as int,
                                p.status@,
                            ) && fresh@ == fresh0.update(
                                ci,
                                spec_bumped_cell(fresh0[ci], p.project_full_path, p.duration),
                            ) && fresh0[ci].count + 1 <= i64::MAX as int && fresh0[ci].total_duration
                                + spec_opt_dur(p.duration) <= i64::MAX as int
                                && fresh0[ci].count_with_duration + spec_opt_has(p.duration)
                                <= i64::MAX as int;
                        lemma_wf_insert_bump(prefix, fresh0, p, ci, p.project_full_path);
                        assert forall|c2: int| 0 <= c2 < fresh@.len() implies (
                        #[trigger] fresh@[c2]).count >= 1 by {
                            if c2 != ci {
                                assert(fresh@[c2] == fresh0[c2]);
                            }
                        }
                        assert forall|c2: int| 0 <= c2 < fresh@.len() implies (
                        #[trigger] fresh@[c2]).project_name@ == spec_last_group_path(
                            rows.take(n as int + 1),
                            fresh@[c2].date@,
                            fresh@[c2].project_id as int,
                            fresh@[c2].status@,
                        ) by {
                            lemma_last_group_path_push(
                                prefix,
                                p,
                                fresh@[c2].date@,
                                fresh@[c2].project_id as int,
                                fresh@[c2].status@,
                            );
                            if c2 != ci {
                                assert(fresh@[c2] == fresh0[c2]);
                                if ci < c2 {
                                    assert(!same_cell_key(fresh0[ci], fresh0[c2]));
                                } else {
                                    assert(!same_cell_key(fresh0[c2], fresh0[ci]));
                                }
                                assert(!spec_in_cell(
                                    p,
                                    fresh@[c2].date@,
                                    fresh@[c2].project_id as int,
                                    fresh@[c2].status@,
                                ));
                            } else {
                                assert(spec_in_cell(
                                    p,
                                    fresh@[c2].date@,
                                    fresh@[c2].project_id as int,
                                    fresh@[c2].status@,
                                ));
                            }
                        }
                    } else {
                        lemma_wf_insert_push(prefix, fresh0, p, fresh@[fresh0.len() as int]);
                        assert forall|c2: int| 0 <= c2 < fresh@.len() implies (
                        #[trigger] fresh@[c2]).count >= 1 by {
                            if c2 < fresh0.len() {
                                assert(fresh@[c2] == fresh0[c2]);
                            }
                        }
                        assert forall|c2: int| 0 <= c2 < fresh@.len() implies (
                        #[trigger] fresh@[c2]).project_name@ == spec_last_group_path(
                            rows.take(n as int + 1),
                            fresh@[c2].date@,
                            fresh@[c2].project_id as int,
                            fresh@[c2].status@,
                        ) by {
                            lemma_last_group_path_push(
                                prefix,
                                p,
                                fresh@[c2].date@,
                                fresh@[c2].project_id as int,
                                fresh@[c2].status@,
                            );
                            if c2 < fresh0.len() {
                                assert(fresh@[c2] == fresh0[c2]);
                                assert(!cell_key_is(
                                    fresh0[c2],
                                    date@,
                                    p.project_id as int,
                                    p.status@,
                                ));
                                assert(!spec_in_cell(
                                    p,
                                    fresh@[c2].date@,
                                    fresh@[c2].project_id as int,
                                    fresh@[c2].status@,
                                ));
                            } else {
                                assert(spec_in_cell(
                                    p,
                                    fresh@[c2].date@,
                                    fresh@[c2].project_id as int,
                                    fresh@[c2].status@,
                                ));
                            }
                        }
                    }
                    assert(store_wf(rows.take(n as int + 1), fresh@));
                },
            }
        }
        n = n + 1;
    }
    proof {
        assert(rows.take(n as int) =~= rows);
    }
    // fold the recomputed cells into the aggregate table
    let mut m: usize = 0;
    while m < fresh.len()
        invariant
            old(s).wf(),
            rows == old(s).facts(),
            cells0 == old(s).cells(),
            rows == s.facts(),
            s.watermark_of() == old(s).watermark_of(),
            m <= fresh@.len(),
            store_wf(rows, fresh@),
            forall|ci: int| 0 <= ci < fresh@.len() ==> (#[trigger] fresh@[ci]).count >= 1,
            s.cells().len() == cells0.len(),
            forall|i: int|
                0 <= i < cells0.len() ==> same_cell_key(#[trigger] s.cells()[i], cells0[i])
                    && s.cells()[i].count == cells0[i].count && s.cells()[i].total_duration
                    == cells0[i].total_duration && s.cells()[i].count_with_duration
                    == cells0[i].count_with_duration,
            forall|i: int|
                0 <= i < cells0.len() ==> (#[trigger] s.cells()[i]).date == cells0[i].date
                    && s.cells()[i].project_id == cells0[i].project_id && s.cells()[i].status
                    == cells0[i].status,
            forall|ci: int|
                0 <= ci < fresh@.len() ==> (#[trigger] fresh@[ci]).project_name@
                    == spec_last_group_path(
                    rows,
                    fresh@[ci].date@,
                    fresh@[ci].project_id as int,
                    fresh@[ci].status@,
                ),
            forall|i: int|
                0 <= i < cells0.len() ==> (#[trigger] s.cells()[i]).project_name@ == (
                if fresh_covers(fresh@, m as int, cells0[i]) {
                    spec_last_group_path(
                        rows,
                        cells0[i].date@,
                        cells0[i].project_id as int,
                        cells0[i].status@,
                    )
                } else {
                    cells0[i].project_name@
                }),
        decreases fresh@.len() - m,
    {
        let ghost scells = s.cells();
        let ghost fc = fresh@[m as int];
        let ci = match s.find_cell(&fresh[m].date, fresh[m].project_id, &fresh[m].status) {
            Some(ci) => ci,
            None => {
                proof {
                    assert(cell_consistent(fc, rows));
                    lemma_count_pos_member(rows, fc.date@, fc.project_id as int, fc.status@);
                    let jm = choose|jm: int|
                        0 <= jm < rows.len() && spec_in_cell(
                            #[trigger] rows[jm],
                            fc.date@,
                            fc.project_id as int,
                            fc.status@,
                        );
                    assert(row_covered(cells0, rows, jm));
                    let cw = choose|cw: int|
                        0 <= cw < cells0.len() && cell_key_is(
                            #[trigger] cells0[cw],
                            spec_fact_date(rows[jm]),
                            rows[jm].project_id as int,
                            rows[jm].status@,
                        );
                    assert(same_cell_key(scells[cw], cells0[cw]));
                    assert(cell_key_is(scells[cw], fc.date@, fc.project_id as int, fc.status@));
                    assert(false);
                }
                return ;
            },
        };
        let f_count = fresh[m].count;
        let f_total = fresh[m].total_duration;
        let f_cwd = fresh[m].count_with_duration;
        let f_name = fresh[m].project_name.clone();
        proof {
            assert(cell_consistent(fc, rows));
            assert(cell_consistent(cells0[ci as int], rows));
        }
        s.stats[ci].count = f_count;
        s.stats[ci].total_duration = f_total;
        s.stats[ci].count_with_duration = f_cwd;
        s.stats[ci].project_name = f_name;
        proof {
            assert forall|i: int| 0 <= i < cells0.len() implies same_cell_key(
                #[trigger] s.cells()[i],
                cells0[i],
            ) && s.cells()[i].count == cells0[i].count && s.cells()[i].total_duration
                == cells0[i].total_duration && s.cells()[i].count_with_duration
                == cells0[i].count_with_duration && s.cells()[i].date == cells0[i].date
                && s.cells()[i].project_id == cells0[i].project_id && s.cells()[i].status
                == cells0[i].status by {
                if i != ci as int {
                    assert(s.cells()[i] == scells[i]);
                }
            }
            assert(same_cell_key(fc, cells0[ci as int]));
            assert forall|i: int| 0 <= i < cells0.len() implies (
            #[trigger] s.cells()[i]).project_name@ == (if fresh_covers(
                fresh@,
                m as int + 1,
                cells0[i],
            ) {
                spec_last_group_path(
                    rows,
                    cells0[i].date@,
                    cells0[i].project_id as int,
                    cells0[i].status@,
                )
            } else {
                cells0[i].project_name@
            }) by {
                if i == ci as int {
                    assert(same_cell_key(fresh@[m as int], cells0[i]));
                    assert(fresh_covers(fresh@, m as int + 1, cells0[i]));
                    assert(s.cells()[i].project_name@ == fc.project_name@);
                } else {
                    assert(s.cells()[i] == scells[i]);
                    if fresh_covers(fresh@, m as int + 1, cells0[i]) {
                        let fm = choose|fm: int|
                            0 <= fm < m as int + 1 && same_cell_key(#[trigger] fresh@[fm], cells0[i]);
                        if fm == m as int {
                            if i < ci as int {
                                assert(!same_cell_key(cells0[i], cells0[ci as int]));
                            } else {
                                assert(!same_cell_key(cells0[ci as int], cells0[i]));
                            }
                            assert(false);
                        }
                        assert(fresh_covers(fresh@, m as int, cells0[i]));
                    } else {
                        assert(!fresh_covers(fresh@, m as int, cells0[i]));
                    }
                }
            }
        }
        m = m + 1;
    }
    proof {
        assert forall|i: int, jj: int| 0 <= i < jj < s.cells().len() implies !same_cell_key(
            #[trigger] s.cells()[i],
            #[trigger] s.cells()[jj],
        ) by {
            assert(!same_cell_key(cells0[i], cells0[jj]));
            assert(same_cell_key(s.cells()[i], cells0[i]));
            assert(same_cell_key(s.cells()[jj], cells0[jj]));
        }
        assert forall|i: int| 0 <= i < s.cells().len() implies cell_consistent(
            #[trigger] s.cells()[i],
            rows,
        ) by {
            assert(cell_consistent(cells0[i], rows));
            assert(same_cell_key(s.cells()[i], cells0[i]));
        }
        assert forall|jr: int| 0 <= jr < rows.len() implies #[trigger] row_covered(
            s.cells(),
            rows,
            jr,
        ) by {
            assert(row_covered(cells0, rows, jr));
            let cw = choose|cw: int|
                0 <= cw < cells0.len() && cell_key_is(
                    #[trigger] cells0[cw],
                    spec_fact_date(rows[jr]),
                    rows[jr].project_id as int,
                    rows[jr].status@,
                );
            assert(same_cell_key(s.cells()[cw], cells0[cw]));
            assert(cell_key_is(
                s.cells()[cw],
                spec_fact_date(rows[jr]),
                rows[jr].project_id as int,
                rows[jr].status@,
            ));
        }
        assert(store_wf(rows, s.cells()));
        assert forall|i: int| 0 <= i < cells0.len() implies (
        #[trigger] s.cells()[i]).project_name@ == (if spec_count(
            rows,
            cells0[i].date@,
            cells0[i].project_id as int,
            cells0[i].status@,
        ) >= 1 {
            spec_last_group_path(
                rows,
                cells0[i].date@,
                cells0[i].project_id as int,
                cells0[i].status@,
            )
        } else {
            cells0[i].project_name@
        }) by {
            if spec_count(rows, cells0[i].date@, cells0[i].project_id as int, cells0[i].status@)
                >= 1 {
                lemma_count_pos_member(
                    rows,
                    cells0[i].date@,
                    cells0[i].project_id as int,
                    cells0[i].status@,
                );
                let jm = choose|jm: int|
                    0 <= jm < rows.len() && spec_in_cell(
                        #[trigger] rows[jm],
                        cells0[i].date@,
                        cells0[i].project_id as int,
                        cells0[i].status@,
                    );
                assert(row_covered(fresh@, rows, jm));
                let fw = choose|fw: int|
                    0 <= fw < fresh@.len() && cell_key_is(
                        #[trigger] fresh@[fw],
                        spec_fact_date(rows[jm]),
                        rows[jm].project_id as int,
                        rows[jm].status@,
                    );
                assert(same_cell_key(fresh@[fw], cells0[i]));
                assert(fresh_covers(fresh@, m as int, cells0[i]));
            } else {
                if fresh_covers(fresh@, m as int, cells0[i]) {
                    let fm = choose|fm: int|
                        0 <= fm < m as int && same_cell_key(#[trigger] fresh@[fm], cells0[i]);
                    assert(cell_consistent(fresh@[fm], rows));
                    assert(fresh@[fm].count >= 1);
                    assert(false);
                }
            }
        }
    }
}

/// Index of the cell with this key in a cell vector, if any.
fn find_cell_in(stats: &Vec<AggregateCell>, date: &String, pid: i64, status: &String) -> (r:
    Option<usize>)
    ensures
        match r {
            Some(i) => i < stats@.len() && cell_key_is(stats@[i as int], date@, pid as int, status@),
            None => forall|i: int|
                0 <= i < stats@.len() ==> !cell_key_is(#[trigger] stats@[i], date@, pid as int, status@),
        },
{
    let mut k: usize = 0;
    while k < stats.len()
        invariant
            k <= stats@.len(),
            forall|i: int|
                0 <= i < k ==> !cell_key_is(#[trigger] stats@[i], date@, pid as int, status@),
        decreases stats@.len() - k,
    {
        if stats[k].project_id == pid && stats[k].date == *date && stats[k].status == *status {
            return Some(k);
        }
        k = k + 1;
    }
    None
}

/// Count one more row, with duration `dur`, into the cell for this key in a
/// cell vector, creating the cell if it does not exist yet. On overflow
/// nothing is changed.
fn bump_cells(
    stats: &mut Vec<AggregateCell>,
    date: &String,
    pid: i64,
    status: &String,
    name: &String,
    dur: Option<i64>,
) -> (r: Result<(), StoreError>)
    requires
        dur is Some ==> dur->Some_0 >= 0,
    ensures
        match r {
            Err(_) => final(stats)@ == old(stats)@ && (exists|ci: int|
                0 <= ci < old(stats)@.len() && cell_key_is(
                    #[trigger] old(stats)@[ci],
                    date@,
                    pid as int,
                    status@,
                ) && (old(stats)@[ci].count + 1 > i64::MAX as int || old(stats)@[ci].total_duration
                    + spec_opt_dur(dur) > i64::MAX as int || old(stats)@[ci].count_with_duration
                    + spec_opt_has(dur) > i64::MAX as int)),
            Ok(_) => (exists|ci: int|
                0 <= ci < old(stats)@.len() && cell_key_is(
                    #[trigger] old(stats)@[ci],
                    date@,
                    pid as int,
                    status@,
                ) && final(stats)@ == old(stats)@.update(
                    ci,
                    spec_bumped_cell(old(stats)@[ci], *name, dur),
                ) && old(stats)@[ci].count + 1 <= i64::MAX as int && old(stats)@[ci].total_duration
                    + spec_opt_dur(dur) <= i64::MAX as int && old(stats)@[ci].count_with_duration
                    + spec_opt_has(dur) <= i64::MAX as int) || ((forall|ci: int|
                0 <= ci < old(stats)@.len() ==> !cell_key_is(
                    #[trigger] old(stats)@[ci],
                    date@,
                    pid as int,
                    status@,
                )) && final(stats)@ == old(stats)@.push(
                (AggregateCell {
                    date: *date,
                    project_id: pid,
                    project_name: *name,
                    status: *status,
                    count: 1,
                    total_duration: spec_opt_dur(dur) as i64,
                    count_with_duration: spec_opt_has(dur) as i64,
                }),
            )),
        },
{
    let d: i64 = match dur {
        Some(v) => v,
        None => 0,
    };
    let has: i64 = if dur.is_some() {
        1
    } else {
        0
    };
    match find_cell_in(stats, date, pid, status) {
        Some(ci) => {
            let c_count = stats[ci].count;
            let c_total = stats[ci].total_duration;
            let c_cwd = stats[ci].count_with_duration;
            if c_count == i64::MAX || c_total > i64::MAX - d || c_cwd > i64::MAX - has {
                return Err(StoreError::Overflow);
            }
            stats[ci].count = c_count + 1;
            stats[ci].total_duration = c_total + d;
            stats[ci].count_with_duration = c_cwd + has;
            stats[ci].project_name = name.clone();
            proof {
                assert(stats@ =~= old(stats)@.update(
                    ci as int,
                    spec_bumped_cell(old(stats)@[ci as int], *name, dur),
                ));
            }
            Ok(())
        },
        None => {
            stats.push(
                AggregateCell {
                    date: date.clone(),
                    project_id: pid,
                    project_name: name.clone(),
                    status: status.clone(),
                    count: 1,
                    total_duration: d,
                    count_with_duration: has,
                },
            );
            Ok(())
        },
    }
}

/// A prefix of the fact rows never counts more than the whole.
proof fn lemma_take_le(rows: Seq<Pipeline>, n: int, date: Seq<char>, pid: int, st: Seq<char>)
    requires
        rows_ok(rows),
        0 <= n <= rows.len(),
    ensures
        spec_count(rows.take(n), date, pid, st) <= spec_count(rows, date, pid, st),
        spec_dur_sum(rows.take(n), date, pid, st) <= spec_dur_sum(rows, date, pid, st),
        spec_dur_count(rows.take(n), date, pid, st) <= spec_dur_count(rows, date, pid, st),
    decreases rows.len() - n,
{
    if n == rows.len() {
        assert(rows.take(n) =~= rows);
    } else {
        assert(rows.take(n + 1) =~= rows.take(n).push(rows[n]));
        lemma_group_push(rows.take(n), rows[n], date, pid, st);
        assert(fact_ok(rows[n]));
        lemma_take_le(rows, n + 1, date, pid, st);
    }
}


/// Bulk aggregate recompute under its storage-level name.
pub fn backfill_daily_stats(s: &mut Store)
    requires
        old(s).wf(),
    ensures
        final(s).wf(),
        final(s).facts() == old(s).facts(),
        final(s).watermark_of() == old(s).watermark_of(),
        final(s).cells().len() == old(s).cells().len(),
        forall|i: int|
            0 <= i < old(s).cells().len() ==> same_cell_key(
                #[trigger] final(s).cells()[i],
                old(s).cells()[i],
            ) && final(s).cells()[i].count == old(s).cells()[i].count
                && final(s).cells()[i].total_duration == old(s).cells()[i].total_duration
                && final(s).cells()[i].count_with_duration == old(s).cells()[i].count_with_duration,
        forall|i: int|
            0 <= i < old(s).cells().len() ==> (#[trigger] final(s).cells()[i]).project_name@
                == (if spec_count(
                old(s).facts(),
                old(s).cells()[i].date@,
                old(s).cells()[i].project_id as int,
                old(s).cells()[i].status@,
            ) >= 1 {
                spec_last_group_path(
                    old(s).facts(),
                    old(s).cells()[i].date@,
                    old(s).cells()[i].project_id as int,
                    old(s).cells()[i].status@,
                )
            } else {
                old(s).cells()[i].project_name@
            }),
{
    rebuild_aggregates(s)
}


/// Changing only a fact row's user name disturbs no aggregate cell.
proof fn lemma_wf_user_update(
    rows0: Seq<Pipeline>,
    cells0: Seq<AggregateCell>,
    j: int,
    q: Pipeline,
)
    requires
        store_wf(rows0, cells0),
        0 <= j < rows0.len(),
        q.id == rows0[j].id,
        q.project_id == rows0[j].project_id,
        q.status == rows0[j].status,
        q.created_at == rows0[j].created_at,
        q.finished_at == rows0[j].finished_at,
        q.duration == rows0[j].duration,
    ensures
        store_wf(rows0.update(j, q), cells0),
{
    let rows1 = rows0.update(j, q);
    assert(spec_fact_date(q) == spec_fact_date(rows0[j]));
    assert forall|i: int, jj: int| 0 <= i < jj < rows1.len() implies (#[trigger] rows1[i]).id != (
    #[trigger] rows1[jj]).id by {
        assert(rows0[i].id != rows0[jj].id);
    }
    assert forall|i: int| 0 <= i < rows1.len() implies fact_ok(#[trigger] rows1[i]) by {
        assert(fact_ok(rows0[i]));
        assert(fact_ok(rows0[j]));
    }
    assert forall|i: int| 0 <= i < cells0.len() implies cell_consistent(
        #[trigger] cells0[i],
        rows1,
    ) by {
        let c = cells0[i];
        lemma_group_update(rows0, j, q, c.date@, c.project_id as int, c.status@);
        assert(cell_consistent(cells0[i], rows0));
        assert(spec_in_cell(rows0[j], c.date@, c.project_id as int, c.status@) == spec_in_cell(
            q,
            c.date@,
            c.project_id as int,
            c.status@,
        ));
    }
    assert forall|jr: int| 0 <= jr < rows1.len() implies #[trigger] row_covered(
        cells0,
        rows1,
        jr,
    ) by {
        assert(row_covered(cells0, rows0, jr));
        let cw = choose|cw: int|
            0 <= cw < cells0.len() && cell_key_is(
                #[trigger] cells0[cw],
                spec_fact_date(rows0[jr]),
                rows0[jr].project_id as int,
                rows0[jr].status@,
            );
        assert(cell_key_is(
            cells0[cw],
            spec_fact_date(rows1[jr]),
            rows1[jr].project_id as int,
            rows1[jr].status@,
        ));
    }
}

} // verus!
