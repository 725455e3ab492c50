//! The read paths of the dashboard: pipeline listing, summary totals,
//! per-project totals, the per-day trend, and the distinct-value helpers,
//! with the fast/slow routing between the aggregate table and the fact
//! table.

use vstd::prelude::*;
use vstd::string::StringExecFns;
use crate::filter::PipelineFilter;
use crate::filter::exclusion_keeps;
use crate::filter::selector_admits;
use crate::filter::spec_exclusion_keeps;
use crate::filter::spec_selector_admits;
use crate::filter::spec_str_bytes;
use crate::calendar::MAX_TIMESTAMP;
use crate::calendar::date_string_of_timestamp;
use crate::calendar::spec_date_of_timestamp;
use crate::aggregate::spec_row_dur;
use crate::aggregate::spec_row_has_dur;
use crate::filter::spec_fast_path;
use crate::filter::spec_trend_range;
use crate::filter::trend_range;
use crate::filter::use_fast_path;
use crate::models::AggregateCell;
use crate::models::Pipeline;
use crate::models::DailyStat;
use crate::models::ProjectTotals;
use crate::models::SummaryTotals;
use crate::store::Store;
use crate::store::lemma_cell_bounds;

verus! {

/// The byte view of an optional selector string.
pub open spec fn spec_sel(o: Option<String>) -> Option<Seq<u8>> {
    match o {
        Some(s) => Some(spec_str_bytes(s@)),
        None => None,
    }
}

/// Whether a fact row passes the listing filters: the project selector on
/// its full path, the ref selector, the exclusion list, the exact status,
/// and the creation-time bounds.
pub open spec fn spec_row_admitted(f: PipelineFilter, p: Pipeline) -> bool {
    &&& spec_selector_admits(spec_sel(f.project_name), spec_str_bytes(p.project_full_path@))
    &&& spec_selector_admits(spec_sel(f.ref_name), spec_str_bytes(p.ref_name@))
    &&& spec_exclusion_keeps(spec_sel(f.exclude_projects), spec_str_bytes(p.project_full_path@))
    &&& (f.status is Some ==> p.status@ == f.status->Some_0@)
    &&& (f.from_ts is Some ==> p.created_at >= f.from_ts->Some_0)
    &&& (f.to_ts is Some ==> p.created_at <= f.to_ts->Some_0)
}

/// Number of fact rows passing the listing filters.
pub open spec fn spec_admitted_count(rows: Seq<Pipeline>, f: PipelineFilter) -> int
    decreases rows.len(),
{
    if rows.len() == 0 {
        0
    } else {
        spec_admitted_count(rows.drop_last(), f) + if spec_row_admitted(f, rows.last()) {
            1int
        } else {
            0int
        }
    }
}

/// Rows ordered newest first.
pub open spec fn spec_sorted_desc(sq: Seq<Pipeline>) -> bool {
    forall|i: int, k: int|
        0 <= i <= k < sq.len() ==> (#[trigger] sq[i]).created_at >= (#[trigger] sq[k]).created_at
}

/// Whether a fact row passes the listing filters.
pub fn row_admitted(f: &PipelineFilter, p: &Pipeline) -> (r: bool)
    ensures
        r == spec_row_admitted(*f, *p),
{
    if !selector_admits(&f.project_name, p.project_full_path.as_str()) {
        return false;
    }
    if !selector_admits(&f.ref_name, p.ref_name.as_str()) {
        return false;
    }
    if !exclusion_keeps(&f.exclude_projects, p.project_full_path.as_str()) {
        return false;
    }
    match &f.status {
        Some(st) => {
            if !(p.status == *st) {
                return false;
            }
        },
        None => {},
    }
    match f.from_ts {
        Some(t) => {
            if p.created_at < t {
                return false;
            }
        },
        None => {},
    }
    match f.to_ts {
        Some(t) => {
            if p.created_at > t {
                return false;
            }
        },
        None => {},
    }
    true
}

/// The 100 most recent fact rows passing the filters, newest first. Every
/// returned row is a stored row that passes; the answer holds as many
/// passing rows as there are, up to 100; and no passing row left out is
/// newer than the oldest row returned.
#[verifier::rlimit(60)]
pub fn list_pipelines(s: &Store, f: &PipelineFilter) -> (r: Vec<Pipeline>)
    ensures
        r@.len() == if spec_admitted_count(s.facts(), *f) <= 100 {
            spec_admitted_count(s.facts(), *f)
        } else {
            100int
        },
        forall|k: int| 0 <= k < r@.len() ==> spec_row_admitted(*f, #[trigger] r@[k]),
        forall|k: int| 0 <= k < r@.len() ==> s.facts().contains(#[trigger] r@[k]),
        spec_sorted_desc(r@),
        forall|j: int|
            0 <= j < s.facts().len() && spec_row_admitted(*f, #[trigger] s.facts()[j]) ==> r@.contains(
                s.facts()[j],
            ) || (r@.len() == 100 && s.facts()[j].created_at <= r@[99].created_at),
{
    let ghost rows = s.facts();
    let mut matched: Vec<Pipeline> = Vec::new();
    let mut n: usize = 0;
    proof {
        assert(rows.take(0) =~= Seq::<Pipeline>::empty());
    }
    while n < s.fact_count()
        invariant
            n <= rows.len(),
            rows == s.facts(),
            matched@.len() == spec_admitted_count(rows.take(n as int), *f),
            forall|k: int| 0 <= k < matched@.len() ==> spec_row_admitted(*f, #[trigger] matched@[k]),
            forall|k: int| 0 <= k < matched@.len() ==> rows.contains(#[trigger] matched@[k]),
            forall|j: int|
                0 <= j < n && spec_row_admitted(*f, #[trigger] rows[j]) ==> matched@.contains(
                    rows[j],
                ),
        decreases rows.len() - n,
    {
        proof {
            assert(rows.take(n as int + 1) =~= rows.take(n as int).push(rows[n as int]));
            assert(rows.take(n as int + 1).drop_last() =~= rows.take(n as int));
        }
        let row = s.fact_at(n);
        if row_admitted(f, row) {
            let ghost m0 = matched@;
            matched.push(row.duplicate());
            proof {
                assert(rows.contains(rows[n as int]));
                assert(matched@[m0.len() as int] == rows[n as int]);
                assert forall|j: int|
                    0 <= j < n + 1 && spec_row_admitted(*f, #[trigger] rows[j]) implies matched@.contains(
                    rows[j],
                ) by {
                    if j < n {
                        let k = choose|k: int| 0 <= k < m0.len() && m0[k] == rows[j];
                        assert(matched@[k] == rows[j]);
                    } else {
                        assert(matched@[m0.len() as int] == rows[j]);
                    }
                }
            }
        }
        n = n + 1;
    }
    proof {
        assert(rows.take(n as int) =~= rows);
    }
    // order the matches newest first
    let mut out: Vec<Pipeline> = Vec::new();
    let mut m: usize = 0;
    while m < matched.len()
        invariant
            m <= matched@.len(),
            rows == s.facts(),
            out@.len() == m,
            spec_sorted_desc(out@),
            forall|k: int| 0 <= k < out@.len() ==> spec_row_admitted(*f, #[trigger] out@[k]),
            forall|k: int| 0 <= k < out@.len() ==> rows.contains(#[trigger] out@[k]),
            forall|j: int| 0 <= j < m ==> out@.contains(#[trigger] matched@[j]),
            forall|k: int| 0 <= k < matched@.len() ==> spec_row_admitted(*f, #[trigger] matched@[k]),
            forall|k: int| 0 <= k < matched@.len() ==> rows.contains(#[trigger] matched@[k]),
        decreases matched@.len() - m,
    {
        let elem = matched[m].duplicate();
        let ghost out0 = out@;
        let mut pos: usize = 0;
        loop
            invariant
                pos <= out0.len(),
                out@ == out0,
                elem == matched@[m as int],
                forall|i: int| 0 <= i < pos ==> (#[trigger] out0[i]).created_at >= elem.created_at,
            ensures
                pos <= out0.len(),
                out@ == out0,
                forall|i: int| 0 <= i < pos ==> (#[trigger] out0[i]).created_at >= elem.created_at,
                pos < out0.len() ==> out0[pos as int].created_at < elem.created_at,
            decreases out0.len() - pos,
        {
            if pos == out.len() {
                break;
            }
            if out[pos].created_at < elem.created_at {
                break;
            }
            pos = pos + 1;
        }
        out.insert(pos, elem);
        proof {
            out0.insert_ensures(pos as int, elem);
            assert forall|i: int, k: int|
                0 <= i <= k < out@.len() implies (#[trigger] out@[i]).created_at >= (
            #[trigger] out@[k]).created_at by {
                if i < pos {
                    assert(out@[i] == out0[i]);
                }
                if pos < i {
                    assert(out@[i] == out0[i - 1]);
                }
                if k < pos {
                    assert(out@[k] == out0[k]);
                }
                if pos < k {
                    assert(out@[k] == out0[k - 1]);
                }
            }
            assert forall|k: int| 0 <= k < out@.len() implies spec_row_admitted(
                *f,
                #[trigger] out@[k],
            ) && rows.contains(out@[k]) by {
                if k < pos {
                    assert(out@[k] == out0[k]);
                } else if k > pos {
                    assert(out@[k] == out0[k - 1]);
                } else {
                    assert(out@[k] == matched@[m as int]);
                }
            }
            assert forall|j: int| 0 <= j < m + 1 implies out@.contains(#[trigger] matched@[j]) by {
                if j < m {
                    let k = choose|k: int| 0 <= k < out0.len() && out0[k] == matched@[j];
                    if k < pos {
                        assert(out@[k] == matched@[j]);
                    } else {
                        assert(out@[k + 1] == matched@[j]);
                    }
                } else {
                    assert(out@[pos as int] == matched@[j]);
                }
            }
        }
        m = m + 1;
    }
    proof {
        assert(out@.len() == spec_admitted_count(rows, *f));
    }
    if out.len() <= 100 {
        proof {
            assert forall|j: int|
                0 <= j < rows.len() && spec_row_admitted(*f, #[trigger] rows[j]) implies out@.contains(
                rows[j],
            ) by {
                let k = choose|k: int| 0 <= k < matched@.len() && matched@[k] == rows[j];
                assert(out@.contains(matched@[k]));
            }
        }
        return out;
    }
    let mut res: Vec<Pipeline> = Vec::new();
    let mut t: usize = 0;
    while t < 100
        invariant
            out@.len() > 100,
            t <= 100,
            res@.len() == t,
            forall|k: int| 0 <= k < t ==> #[trigger] res@[k] == out@[k],
        decreases 100 - t,
    {
        res.push(out[t].duplicate());
        t = t + 1;
    }
    proof {
        assert forall|i: int, k: int|
            0 <= i <= k < res@.len() implies (#[trigger] res@[i]).created_at >= (
        #[trigger] res@[k]).created_at by {
            assert(res@[i] == out@[i]);
            assert(res@[k] == out@[k]);
        }
        assert forall|j: int|
            0 <= j < rows.len() && spec_row_admitted(*f, #[trigger] rows[j]) implies res@.contains(
            rows[j],
        ) || (res@.len() == 100 && rows[j].created_at <= res@[99].created_at) by {
            let k = choose|k: int| 0 <= k < matched@.len() && matched@[k] == rows[j];
            assert(out@.contains(matched@[k]));
            let k2 = choose|k2: int| 0 <= k2 < out@.len() && out@[k2] == rows[j];
            if k2 < 100 {
                assert(res@[k2] == rows[j]);
                assert(res@.contains(rows[j]));
            } else {
                assert(out@[99].created_at >= out@[k2].created_at);
                assert(res@[99] == out@[99]);
            }
        }
    }
    res
}


/// Lexicographic order on byte strings, as the store compares date texts.
pub open spec fn spec_bytes_le(a: Seq<u8>, b: Seq<u8>) -> bool
    decreases a.len(),
{
    if a.len() == 0 {
        true
    } else if b.len() == 0 {
        false
    } else if a.first() < b.first() {
        true
    } else if a.first() > b.first() {
        false
    } else {
        spec_bytes_le(a.drop_first(), b.drop_first())
    }
}

/// Lexicographic comparison of two byte slices.
pub fn bytes_le(a: &[u8], b: &[u8]) -> (r: bool)
    ensures
        r == spec_bytes_le(a@, b@),
{
    let mut i: usize = 0;
    proof {
        assert(a@.skip(0) =~= a@);
        assert(b@.skip(0) =~= b@);
    }
    loop
        invariant
            i <= a@.len(),
            i <= b@.len(),
            spec_bytes_le(a@, b@) == spec_bytes_le(a@.skip(i as int), b@.skip(i as int)),
        decreases a@.len() - i,
    {
        if i == a.len() {
            proof {
                assert(a@.skip(i as int).len() == 0);
            }
            return true;
        }
        if i == b.len() {
            proof {
                assert(b@.skip(i as int).len() == 0);
            }
            return false;
        }
        proof {
            assert(a@.skip(i as int).first() == a@[i as int]);
            assert(b@.skip(i as int).first() == b@[i as int]);
        }
        if a[i] < b[i] {
            return true;
        }
        if a[i] > b[i] {
            return false;
        }
        proof {
            assert(a@.skip(i as int).drop_first() =~= a@.skip(i as int + 1));
            assert(b@.skip(i as int).drop_first() =~= b@.skip(i as int + 1));
        }
        i = i + 1;
    }
}


/// The string `success`.
fn success_string() -> (r: String)
    ensures
        r@ == "success"@,
{
    let mut out = String::new();
    out.append("success");
    proof {
        assert(out@ =~= "success"@);
    }
    out
}

/// The ref filter as the routing decision sees it.
pub open spec fn spec_ref_sel(f: PipelineFilter) -> Option<Seq<char>> {
    match f.ref_name {
        Some(x) => Some(x@),
        None => None,
    }
}

/// Whether a fact row passes the summary filters: project selector, ref
/// selector, exclusion, and the creation-time bounds.
pub open spec fn spec_row_in_summary(f: PipelineFilter, p: Pipeline) -> bool {
    &&& spec_selector_admits(spec_sel(f.project_name), spec_str_bytes(p.project_full_path@))
    &&& spec_selector_admits(spec_sel(f.ref_name), spec_str_bytes(p.ref_name@))
    &&& spec_exclusion_keeps(spec_sel(f.exclude_projects), spec_str_bytes(p.project_full_path@))
    &&& (f.from_ts is Some ==> p.created_at >= f.from_ts->Some_0)
    &&& (f.to_ts is Some ==> p.created_at <= f.to_ts->Some_0)
}

/// The summary totals of the fact rows passing the filters: count,
/// duration sum, duration count, and successes.
pub open spec fn spec_rows_summary(rows: Seq<Pipeline>, f: PipelineFilter) -> (int, int, int, int)
    decreases rows.len(),
{
    if rows.len() == 0 {
        (0int, 0int, 0int, 0int)
    } else {
        let t = spec_rows_summary(rows.drop_last(), f);
        let p = rows.last();
        if spec_row_in_summary(f, p) {
            (
                t.0 + 1,
                t.1 + spec_row_dur(p),
                t.2 + spec_row_has_dur(p),
                t.3 + if p.status@ == "success"@ {
                    1int
                } else {
                    0int
                },
            )
        } else {
            t
        }
    }
}

/// Whether an aggregate cell passes the summary filters: project selector
/// and exclusion on its denormalized name, and the date bounds compared on
/// the rendered calendar day.
pub open spec fn spec_cell_in_summary(f: PipelineFilter, c: AggregateCell) -> bool {
    &&& spec_selector_admits(spec_sel(f.project_name), spec_str_bytes(c.project_name@))
    &&& spec_exclusion_keeps(spec_sel(f.exclude_projects), spec_str_bytes(c.project_name@))
    &&& (f.from_ts is Some ==> spec_bytes_le(
        spec_str_bytes(spec_date_of_timestamp(f.from_ts->Some_0 as int)),
        spec_str_bytes(c.date@),
    ))
    &&& (f.to_ts is Some ==> spec_bytes_le(
        spec_str_bytes(c.date@),
        spec_str_bytes(spec_date_of_timestamp(f.to_ts->Some_0 as int)),
    ))
}

/// The summary totals of the aggregate cells passing the filters.
pub open spec fn spec_cells_summary(cells: Seq<AggregateCell>, f: PipelineFilter) -> (
    int,
    int,
    int,
    int,
)
    decreases cells.len(),
{
    if cells.len() == 0 {
        (0int, 0int, 0int, 0int)
    } else {
        let t = spec_cells_summary(cells.drop_last(), f);
        let c = cells.last();
        if spec_cell_in_summary(f, c) {
            (
                t.0 + c.count,
                t.1 + c.total_duration,
                t.2 + c.count_with_duration,
                t.3 + if c.status@ == "success"@ {
                    c.count as int
                } else {
                    0int
                },
            )
        } else {
            t
        }
    }
}

proof fn lemma_cells_summary_bounds(cells: Seq<AggregateCell>, f: PipelineFilter)
    requires
        forall|i: int|
            0 <= i < cells.len() ==> (#[trigger] cells[i]).count >= 0
                && cells[i].total_duration >= 0 && cells[i].count_with_duration >= 0,
    ensures
        ({
            let t = spec_cells_summary(cells, f);
            &&& 0 <= t.0 <= cells.len() * 0x7fffffffffffffff
            &&& 0 <= t.1 <= cells.len() * 0x7fffffffffffffff
            &&& 0 <= t.2 <= cells.len() * 0x7fffffffffffffff
            &&& 0 <= t.3 <= cells.len() * 0x7fffffffffffffff
        }),
    decreases cells.len(),
{
    if cells.len() > 0 {
        assert(forall|i: int|
            0 <= i < cells.drop_last().len() ==> #[trigger] cells.drop_last()[i] == cells[i]);
        lemma_cells_summary_bounds(cells.drop_last(), f);
        assert((cells.len() - 1) * 0x7fffffffffffffff + 0x7fffffffffffffff == cells.len()
            * 0x7fffffffffffffff) by (nonlinear_arith);
        assert(cells[cells.len() - 1].count <= 0x7fffffffffffffff);
    }
}

proof fn lemma_rows_summary_bounds(rows: Seq<Pipeline>, f: PipelineFilter)
    requires
        forall|i: int|
            0 <= i < rows.len() ==> (#[trigger] rows[i]).duration is Some
                ==> rows[i].duration->Some_0 >= 0,
    ensures
        ({
            let t = spec_rows_summary(rows, f);
            &&& 0 <= t.0 <= rows.len() * 0x7fffffffffffffff
            &&& 0 <= t.1 <= rows.len() * 0x7fffffffffffffff
            &&& 0 <= t.2 <= rows.len() * 0x7fffffffffffffff
            &&& 0 <= t.3 <= rows.len() * 0x7fffffffffffffff
        }),
    decreases rows.len(),
{
    if rows.len() > 0 {
        assert(forall|i: int|
            0 <= i < rows.drop_last().len() ==> #[trigger] rows.drop_last()[i] == rows[i]);
        lemma_rows_summary_bounds(rows.drop_last(), f);
        assert((rows.len() - 1) * 0x7fffffffffffffff + 0x7fffffffffffffff == rows.len()
            * 0x7fffffffffffffff) by (nonlinear_arith);
        assert(rows[rows.len() - 1].duration is Some ==> rows[rows.len() - 1].duration->Some_0
            >= 0);
    }
}

proof fn lemma_prefix_fits(n: int, len: int)
    requires
        0 <= n < len,
        len <= 0xffffffffffffffff,
    ensures
        (n + 1) * 0x7fffffffffffffff < 0xffffffffffffffffffffffffffffffff,
{
    vstd::arithmetic::mul::lemma_mul_inequality(n + 1, 0x10000000000000000, 0x7fffffffffffffff);
    assert(0x10000000000000000 * 0x7fffffffffffffff < 0xffffffffffffffffffffffffffffffff)
        by (nonlinear_arith);
}

/// Whether a fact row passes the summary filters.
fn row_in_summary(f: &PipelineFilter, p: &Pipeline) -> (r: bool)
    ensures
        r == spec_row_in_summary(*f, *p),
{
    if !selector_admits(&f.project_name, p.project_full_path.as_str()) {
        return false;
    }
    if !selector_admits(&f.ref_name, p.ref_name.as_str()) {
        return false;
    }
    if !exclusion_keeps(&f.exclude_projects, p.project_full_path.as_str()) {
        return false;
    }
    match f.from_ts {
        Some(t) => {
            if p.created_at < t {
                return false;
            }
        },
        None => {},
    }
    match f.to_ts {
        Some(t) => {
            if p.created_at > t {
                return false;
            }
        },
        None => {},
    }
    true
}

/// Whether an aggregate cell passes the summary filters; the rendered date
/// bounds are handed in.
fn cell_in_summary(
    f: &PipelineFilter,
    from_date: &Option<String>,
    to_date: &Option<String>,
    c: &AggregateCell,
) -> (r: bool)
    requires
        (match f.from_ts {
            Some(t) => from_date is Some && from_date->Some_0@ == spec_date_of_timestamp(t as int),
            None => from_date is None,
        }),
        (match f.to_ts {
            Some(t) => to_date is Some && to_date->Some_0@ == spec_date_of_timestamp(t as int),
            None => to_date is None,
        }),
    ensures
        r == spec_cell_in_summary(*f, *c),
{
    if !selector_admits(&f.project_name, c.project_name.as_str()) {
        return false;
    }
    if !exclusion_keeps(&f.exclude_projects, c.project_name.as_str()) {
        return false;
    }
    match from_date {
        Some(d) => {
            if !bytes_le(d.as_str().as_bytes(), c.date.as_str().as_bytes()) {
                return false;
            }
        },
        None => {},
    }
    match to_date {
        Some(d) => {
            if !bytes_le(c.date.as_str().as_bytes(), d.as_str().as_bytes()) {
                return false;
            }
        },
        None => {},
    }
    true
}

/// The summary statistics under the filters, as exact totals: answered from
/// the aggregate table when the ref filter permits the fast path, else from
/// the fact table.
#[verifier::rlimit(60)]
pub fn summary_stats(s: &Store, f: &PipelineFilter) -> (r: SummaryTotals)
    requires
        s.wf(),
        spec_fast_path(spec_ref_sel(*f)) ==> ((f.from_ts is Some ==> 0 <= f.from_ts->Some_0
            <= MAX_TIMESTAMP) && (f.to_ts is Some ==> 0 <= f.to_ts->Some_0 <= MAX_TIMESTAMP)),
    ensures
        spec_fast_path(spec_ref_sel(*f)) ==> ({
            let t = spec_cells_summary(s.cells(), *f);
            &&& r.total_count as int == t.0
            &&& r.total_duration as int == t.1
            &&& r.count_with_duration as int == t.2
            &&& r.success_count as int == t.3
        }),
        !spec_fast_path(spec_ref_sel(*f)) ==> ({
            let t = spec_rows_summary(s.facts(), *f);
            &&& r.total_count as int == t.0
            &&& r.total_duration as int == t.1
            &&& r.count_with_duration as int == t.2
            &&& r.success_count as int == t.3
        }),
{
    let fast = use_fast_path(&f.ref_name);
    let success = success_string();
    let mut total_count: u128 = 0;
    let mut total_duration: u128 = 0;
    let mut count_with_duration: u128 = 0;
    let mut success_count: u128 = 0;
    if fast {
        let ghost cells = s.cells();
        let from_date: Option<String> = match f.from_ts {
            Some(t) => Some(date_string_of_timestamp(t)),
            None => None,
        };
        let to_date: Option<String> = match f.to_ts {
            Some(t) => Some(date_string_of_timestamp(t)),
            None => None,
        };
        let mut n: usize = 0;
        proof {
            assert(cells.take(0) =~= Seq::<AggregateCell>::empty());
        }
        while n < s.cell_count()
            invariant
                s.wf(),
                n <= cells.len(),
                cells == s.cells(),
                (match f.from_ts {
                    Some(t) => from_date is Some && from_date->Some_0@ == spec_date_of_timestamp(
                        t as int,
                    ),
                    None => from_date is None,
                }),
                (match f.to_ts {
                    Some(t) => to_date is Some && to_date->Some_0@ == spec_date_of_timestamp(
                        t as int,
                    ),
                    None => to_date is None,
                }),
                success@ == "success"@,
                ({
                    let t = spec_cells_summary(cells.take(n as int), *f);
                    &&& total_count as int == t.0
                    &&& total_duration as int == t.1
                    &&& count_with_duration as int == t.2
                    &&& success_count as int == t.3
                }),
            decreases cells.len() - n,
        {
            proof {
                assert(cells.take(n as int + 1) =~= cells.take(n as int).push(cells[n as int]));
                assert(cells.take(n as int + 1).drop_last() =~= cells.take(n as int));
                assert forall|i: int|
                    0 <= i < cells.len() implies (#[trigger] cells[i]).count >= 0
                    && cells[i].total_duration >= 0 && cells[i].count_with_duration >= 0 by {
                    lemma_cell_bounds(*s, i);
                }
                assert forall|i: int|
                    0 <= i < cells.take(n as int).len() implies (#[trigger] cells.take(
                    n as int,
                )[i]).count >= 0 && cells.take(n as int)[i].total_duration >= 0 && cells.take(
                    n as int,
                )[i].count_with_duration >= 0 by {
                    assert(cells.take(n as int)[i] == cells[i]);
                }
                lemma_cells_summary_bounds(cells.take(n as int), *f);
                lemma_prefix_fits(n as int, cells.len() as int);
                vstd::arithmetic::mul::lemma_mul_inequality(
                    n as int,
                    cells.len() as int,
                    0x7fffffffffffffff,
                );
            }
            let c = s.cell_at(n);
            if cell_in_summary(f, &from_date, &to_date, c) {
                total_count = total_count + (c.count as u128);
                total_duration = total_duration + (c.total_duration as u128);
                count_with_duration = count_with_duration + (c.count_with_duration as u128);
                if c.status == success {
                    success_count = success_count + (c.count as u128);
                }
            }
            n = n + 1;
        }
        proof {
            assert(cells.take(n as int) =~= cells);
        }
    } else {
        let ghost rows = s.facts();
        let mut n: usize = 0;
        proof {
            assert(rows.take(0) =~= Seq::<Pipeline>::empty());
        }
        while n < s.fact_count()
            invariant
                s.wf(),
                n <= rows.len(),
                rows == s.facts(),
                success@ == "success"@,
                ({
                    let t = spec_rows_summary(rows.take(n as int), *f);
                    &&& total_count as int == t.0
                    &&& total_duration as int == t.1
                    &&& count_with_duration as int == t.2
                    &&& success_count as int == t.3
                }),
            decreases rows.len() - n,
        {
            proof {
                assert(rows.take(n as int + 1) =~= rows.take(n as int).push(rows[n as int]));
                assert(rows.take(n as int + 1).drop_last() =~= rows.take(n as int));
                assert forall|i: int|
                    0 <= i < rows.take(n as int).len() && (#[trigger] rows.take(
                    n as int,
                )[i]).duration is Some implies rows.take(n as int)[i].duration->Some_0 >= 0 by {
                    assert(rows.take(n as int)[i] == rows[i]);
                    assert(crate::models::fact_ok(rows[i]));
                }
                lemma_rows_summary_bounds(rows.take(n as int), *f);
                lemma_prefix_fits(n as int, rows.len() as int);
                vstd::arithmetic::mul::lemma_mul_inequality(
                    n as int,
                    rows.len() as int,
                    0x7fffffffffffffff,
                );
                assert(crate::models::fact_ok(rows[n as int]));
            }
            let p = s.fact_at(n);
            if row_in_summary(f, p) {
                total_count = total_count + 1;
                match p.duration {
                    Some(d) => {
                        total_duration = total_duration + (d as u128);
                        count_with_duration = count_with_duration + 1;
                    },
                    None => {},
                }
                if p.status == success {
                    success_count = success_count + 1;
                }
            }
            n = n + 1;
        }
        proof {
            assert(rows.take(n as int) =~= rows);
        }
    }
    SummaryTotals { total_count, total_duration, count_with_duration, success_count }
}


/// Clamp an exact total into the row counter range.
pub open spec fn spec_clamp(x: int) -> int {
    if x <= i64::MAX as int {
        x
    } else {
        i64::MAX as int
    }
}

/// Whether an aggregate cell falls in the trend window and filters.
pub open spec fn spec_cell_in_trend(
    f: PipelineFilter,
    c: AggregateCell,
    sd: Seq<char>,
    ed: Seq<char>,
) -> bool {
    &&& spec_selector_admits(spec_sel(f.project_name), spec_str_bytes(c.project_name@))
    &&& spec_exclusion_keeps(spec_sel(f.exclude_projects), spec_str_bytes(c.project_name@))
    &&& spec_bytes_le(spec_str_bytes(sd), spec_str_bytes(c.date@))
    &&& spec_bytes_le(spec_str_bytes(c.date@), spec_str_bytes(ed))
}

/// The trend count a (date, status) bucket collects from the cells.
pub open spec fn spec_trend_cells(
    cells: Seq<AggregateCell>,
    f: PipelineFilter,
    sd: Seq<char>,
    ed: Seq<char>,
    date: Seq<char>,
    status: Seq<char>,
) -> int
    decreases cells.len(),
{
    if cells.len() == 0 {
        0
    } else {
        spec_trend_cells(cells.drop_last(), f, sd, ed, date, status) + {
            let c = cells.last();
            if spec_cell_in_trend(f, c, sd, ed) && c.date@ == date && c.status@ == status {
                c.count as int
            } else {
                0int
            }
        }
    }
}

/// Whether a fact row falls in the trend window and filters.
pub open spec fn spec_row_in_trend(f: PipelineFilter, p: Pipeline, start: int, end: int) -> bool {
    &&& spec_selector_admits(spec_sel(f.project_name), spec_str_bytes(p.project_full_path@))
    &&& spec_selector_admits(spec_sel(f.ref_name), spec_str_bytes(p.ref_name@))
    &&& spec_exclusion_keeps(spec_sel(f.exclude_projects), spec_str_bytes(p.project_full_path@))
    &&& start <= p.created_at <= end
}

/// The trend count a (date, status) bucket collects from the fact rows.
pub open spec fn spec_trend_rows(
    rows: Seq<Pipeline>,
    f: PipelineFilter,
    start: int,
    end: int,
    date: Seq<char>,
    status: Seq<char>,
) -> int
    decreases rows.len(),
{
    if rows.len() == 0 {
        0
    } else {
        spec_trend_rows(rows.drop_last(), f, start, end, date, status) + {
            let p = rows.last();
            if spec_row_in_trend(f, p, start, end) && crate::models::spec_fact_date(p) == date
                && p.status@ == status {
                1int
            } else {
                0int
            }
        }
    }
}

/// Buckets ordered by date text, newest first.
pub open spec fn spec_trend_sorted(sq: Seq<DailyStat>) -> bool {
    forall|i: int, k: int|
        0 <= i <= k < sq.len() ==> spec_bytes_le(
            spec_str_bytes((#[trigger] sq[k]).date@),
            spec_str_bytes((#[trigger] sq[i]).date@),
        )
}

/// No two buckets carry the same (date, status).
pub open spec fn spec_trend_keys_unique(sq: Seq<DailyStat>) -> bool {
    forall|i: int, k: int|
        0 <= i < k < sq.len() ==> !((#[trigger] sq[i]).date@ == (#[trigger] sq[k]).date@
            && sq[i].status@ == sq[k].status@)
}


proof fn lemma_trend_cells_push(
    cells: Seq<AggregateCell>,
    c: AggregateCell,
    f: PipelineFilter,
    sd: Seq<char>,
    ed: Seq<char>,
    date: Seq<char>,
    status: Seq<char>,
)
    ensures
        spec_trend_cells(cells.push(c), f, sd, ed, date, status) == spec_trend_cells(
            cells,
            f,
            sd,
            ed,
            date,
            status,
        ) + if spec_cell_in_trend(f, c, sd, ed) && c.date@ == date && c.status@ == status {
            c.count as int
        } else {
            0int
        },
{
    assert(cells.push(c).drop_last() =~= cells);
    assert(cells.push(c).last() == c);
}

proof fn lemma_trend_cells_zero(
    cells: Seq<AggregateCell>,
    f: PipelineFilter,
    sd: Seq<char>,
    ed: Seq<char>,
    date: Seq<char>,
    status: Seq<char>,
)
    requires
        forall|i: int|
            0 <= i < cells.len() ==> !(spec_cell_in_trend(f, #[trigger] cells[i], sd, ed)
                && cells[i].date@ == date && cells[i].status@ == status),
    ensures
        spec_trend_cells(cells, f, sd, ed, date, status) == 0,
    decreases cells.len(),
{
    if cells.len() > 0 {
        assert(forall|i: int|
            0 <= i < cells.drop_last().len() ==> #[trigger] cells.drop_last()[i] == cells[i]);
        lemma_trend_cells_zero(cells.drop_last(), f, sd, ed, date, status);
    }
}

proof fn lemma_trend_cells_nonneg(
    cells: Seq<AggregateCell>,
    f: PipelineFilter,
    sd: Seq<char>,
    ed: Seq<char>,
    date: Seq<char>,
    status: Seq<char>,
)
    requires
        forall|i: int| 0 <= i < cells.len() ==> (#[trigger] cells[i]).count >= 0,
    ensures
        spec_trend_cells(cells, f, sd, ed, date, status) >= 0,
    decreases cells.len(),
{
    if cells.len() > 0 {
        assert(forall|i: int|
            0 <= i < cells.drop_last().len() ==> #[trigger] cells.drop_last()[i] == cells[i]);
        lemma_trend_cells_nonneg(cells.drop_last(), f, sd, ed, date, status);
    }
}

proof fn lemma_trend_rows_nonneg(
    rows: Seq<Pipeline>,
    f: PipelineFilter,
    start: int,
    end: int,
    date: Seq<char>,
    status: Seq<char>,
)
    ensures
        spec_trend_rows(rows, f, start, end, date, status) >= 0,
    decreases rows.len(),
{
    if rows.len() > 0 {
        lemma_trend_rows_nonneg(rows.drop_last(), f, start, end, date, status);
    }
}

proof fn lemma_trend_rows_push(
    rows: Seq<Pipeline>,
    p: Pipeline,
    f: PipelineFilter,
    start: int,
    end: int,
    date: Seq<char>,
    status: Seq<char>,
)
    ensures
        spec_trend_rows(rows.push(p), f, start, end, date, status) == spec_trend_rows(
            rows,
            f,
            start,
            end,
            date,
            status,
        ) + if spec_row_in_trend(f, p, start, end) && crate::models::spec_fact_date(p) == date
            && p.status@ == status {
            1int
        } else {
            0int
        },
{
    assert(rows.push(p).drop_last() =~= rows);
    assert(rows.push(p).last() == p);
}

proof fn lemma_trend_rows_zero(
    rows: Seq<Pipeline>,
    f: PipelineFilter,
    start: int,
    end: int,
    date: Seq<char>,
    status: Seq<char>,
)
    requires
        forall|i: int|
            0 <= i < rows.len() ==> !(spec_row_in_trend(f, #[trigger] rows[i], start, end)
                && crate::models::spec_fact_date(rows[i]) == date && rows[i].status@ == status),
    ensures
        spec_trend_rows(rows, f, start, end, date, status) == 0,
    decreases rows.len(),
{
    if rows.len() > 0 {
        assert(forall|i: int|
            0 <= i < rows.drop_last().len() ==> #[trigger] rows.drop_last()[i] == rows[i]);
        lemma_trend_rows_zero(rows.drop_last(), f, start, end, date, status);
    }
}

/// Count `inc` more pipelines into the (date, status) bucket, creating the
/// bucket in date order when it is new; the count saturates at the top of
/// its range.
#[verifier::rlimit(60)]
fn add_bucket(acc: &mut Vec<DailyStat>, date: &String, status: &String, inc: i64)
    requires
        inc >= 0,
        spec_trend_sorted(old(acc)@),
        spec_trend_keys_unique(old(acc)@),
    ensures
        spec_trend_sorted(final(acc)@),
        spec_trend_keys_unique(final(acc)@),
        (exists|k: int|
            0 <= k < old(acc)@.len() && (#[trigger] old(acc)@[k]).date@ == date@
                && old(acc)@[k].status@ == status@ && final(acc)@ == old(acc)@.update(
                k,
                (DailyStat {
                    date: old(acc)@[k].date,
                    status: old(acc)@[k].status,
                    count: spec_clamp(old(acc)@[k].count + inc) as i64,
                }),
            )) || ((forall|k: int|
            0 <= k < old(acc)@.len() ==> !((#[trigger] old(acc)@[k]).date@ == date@
                && old(acc)@[k].status@ == status@)) && (exists|pos: int|
            0 <= pos <= old(acc)@.len() && final(acc)@ == old(acc)@.insert(
                pos,
                (DailyStat { date: *date, status: *status, count: inc }),
            ))),
{
    let ghost acc0 = acc@;
    let mut k: usize = 0;
    loop
        invariant
            k <= acc0.len(),
            acc@ == acc0,
            forall|i: int|
                0 <= i < k ==> !((#[trigger] acc0[i]).date@ == date@ && acc0[i].status@
                    == status@),
        ensures
            k <= acc0.len(),
            acc@ == acc0,
            forall|i: int|
                0 <= i < k ==> !((#[trigger] acc0[i]).date@ == date@ && acc0[i].status@
                    == status@),
            k < acc0.len() ==> acc0[k as int].date@ == date@ && acc0[k as int].status@ == status@,
        decreases acc0.len() - k,
    {
        if k == acc.len() {
            break;
        }
        if acc[k].date == *date && acc[k].status == *status {
            break;
        }
        k = k + 1;
    }
    if k < acc.len() {
        let cur = acc[k].count;
        let add: i64 = if cur > i64::MAX - inc {
            i64::MAX
        } else {
            cur + inc
        };
        acc[k].count = add;
        proof {
            assert(acc@ =~= acc0.update(
                k as int,
                (DailyStat {
                    date: acc0[k as int].date,
                    status: acc0[k as int].status,
                    count: spec_clamp(acc0[k as int].count + inc) as i64,
                }),
            ));
            assert forall|i: int, k2: int|
                0 <= i <= k2 < acc@.len() implies spec_bytes_le(
                spec_str_bytes((#[trigger] acc@[k2]).date@),
                spec_str_bytes((#[trigger] acc@[i]).date@),
            ) by {
                assert(acc@[i].date@ == acc0[i].date@);
                assert(acc@[k2].date@ == acc0[k2].date@);
            }
            assert forall|i: int, k2: int|
                0 <= i < k2 < acc@.len() implies !((#[trigger] acc@[i]).date@ == (
            #[trigger] acc@[k2]).date@ && acc@[i].status@ == acc@[k2].status@) by {
                assert(acc@[i].date@ == acc0[i].date@ && acc@[i].status@ == acc0[i].status@);
                assert(acc@[k2].date@ == acc0[k2].date@ && acc@[k2].status@ == acc0[k2].status@);
            }
        }
        return ;
    }
    // new bucket: find its place in the date-descending order
    let mut pos: usize = 0;
    loop
        invariant
            pos <= acc0.len(),
            acc@ == acc0,
            forall|i: int|
                0 <= i < pos ==> spec_bytes_le(
                    spec_str_bytes(date@),
                    spec_str_bytes((#[trigger] acc0[i]).date@),
                ),
        ensures
            pos <= acc0.len(),
            acc@ == acc0,
            forall|i: int|
                0 <= i < pos ==> spec_bytes_le(
                    spec_str_bytes(date@),
                    spec_str_bytes((#[trigger] acc0[i]).date@),
                ),
            pos < acc0.len() ==> !spec_bytes_le(
                spec_str_bytes(date@),
                spec_str_bytes(acc0[pos as int].date@),
            ),
        decreases acc0.len() - pos,
    {
        if pos == acc.len() {
            break;
        }
        if !bytes_le(date.as_str().as_bytes(), acc[pos].date.as_str().as_bytes()) {
            break;
        }
        pos = pos + 1;
    }
    let entry = DailyStat { date: date.clone(), status: status.clone(), count: inc };
    acc.insert(pos, entry);
    proof {
        acc0.insert_ensures(pos as int, (DailyStat { date: *date, status: *status, count: inc }));
        assert(acc@ == acc0.insert(
            pos as int,
            (DailyStat { date: *date, status: *status, count: inc }),
        ));
        lemma_bytes_le_refl(spec_str_bytes(date@));
        if pos < acc0.len() {
            lemma_bytes_le_total(spec_str_bytes(date@), spec_str_bytes(acc0[pos as int].date@));
        }
        assert forall|i: int, k2: int|
            0 <= i <= k2 < acc@.len() implies spec_bytes_le(
            spec_str_bytes((#[trigger] acc@[k2]).date@),
            spec_str_bytes((#[trigger] acc@[i]).date@),
        ) by {
            if i < pos {
                assert(acc@[i] == acc0[i]);
            }
            if pos < i {
                assert(acc@[i] == acc0[i - 1]);
            }
            if k2 < pos {
                assert(acc@[k2] == acc0[k2]);
            }
            if pos < k2 {
                assert(acc@[k2] == acc0[k2 - 1]);
            }
            if i == pos && pos < k2 {
                if pos < acc0.len() {
                    lemma_bytes_le_total(
                        spec_str_bytes(date@),
                        spec_str_bytes(acc0[pos as int].date@),
                    );
                    lemma_bytes_le_trans(
                        spec_str_bytes(acc0[k2 - 1].date@),
                        spec_str_bytes(acc0[pos as int].date@),
                        spec_str_bytes(date@),
                    );
                }
            }
        }
        assert forall|i: int, k2: int|
            0 <= i < k2 < acc@.len() implies !((#[trigger] acc@[i]).date@ == (
        #[trigger] acc@[k2]).date@ && acc@[i].status@ == acc@[k2].status@) by {
            if i < pos {
                assert(acc@[i] == acc0[i]);
            }
            if pos < i {
                assert(acc@[i] == acc0[i - 1]);
            }
            if k2 < pos {
                assert(acc@[k2] == acc0[k2]);
            }
            if pos < k2 {
                assert(acc@[k2] == acc0[k2 - 1]);
            }
        }
    }
}

/// The order on byte strings is reflexive.
proof fn lemma_bytes_le_refl(a: Seq<u8>)
    ensures
        spec_bytes_le(a, a),
    decreases a.len(),
{
    if a.len() > 0 {
        lemma_bytes_le_refl(a.drop_first());
    }
}

/// The order on byte strings is total.
proof fn lemma_bytes_le_total(a: Seq<u8>, b: Seq<u8>)
    ensures
        spec_bytes_le(a, b) || spec_bytes_le(b, a),
    decreases a.len(),
{
    if a.len() > 0 && b.len() > 0 && a.first() == b.first() {
        lemma_bytes_le_total(a.drop_first(), b.drop_first());
    }
}

/// The order on byte strings is transitive.
proof fn lemma_bytes_le_trans(a: Seq<u8>, b: Seq<u8>, c: Seq<u8>)
    requires
        spec_bytes_le(a, b),
        spec_bytes_le(b, c),
    ensures
        spec_bytes_le(a, c),
    decreases a.len(),
{
    if a.len() > 0 && b.len() > 0 && c.len() > 0 {
        if a.first() == b.first() && b.first() == c.first() {
            lemma_bytes_le_trans(a.drop_first(), b.drop_first(), c.drop_first());
        }
    }
}


/// The per-day, per-status trend of the resolved range, newest day first:
/// every bucket's count is the exact total for its (date, status), clamped
/// to the counter range, and every day-status pair contributing in the
/// range has its bucket. Answered from the aggregate table when the ref
/// filter permits the fast path, else from the fact table. Each time bound
/// must sit at least thirty-seven days (the thirty-day default plus the
/// one-week widening) above the epoch so that the resolved range stays
/// within the renderable calendar days.
#[verifier::rlimit(100)]
pub fn trend_stats(s: &Store, f: &PipelineFilter, now: i64) -> (r: Vec<DailyStat>)
    requires
        s.wf(),
        3196800 <= now <= MAX_TIMESTAMP,
        f.from_ts is Some ==> 3196800 <= f.from_ts->Some_0 <= MAX_TIMESTAMP,
        f.to_ts is Some ==> 3196800 <= f.to_ts->Some_0 <= MAX_TIMESTAMP,
    ensures
        ({
            let rng = spec_trend_range(f.from_ts, f.to_ts, now as int);
            let sd = spec_date_of_timestamp(rng.0);
            let ed = spec_date_of_timestamp(rng.1);
            let fast = spec_fast_path(spec_ref_sel(*f));
            &&& spec_trend_sorted(r@)
            &&& spec_trend_keys_unique(r@)
            &&& (fast ==> forall|k: int|
                0 <= k < r@.len() ==> (#[trigger] r@[k]).count == spec_clamp(
                    spec_trend_cells(s.cells(), *f, sd, ed, r@[k].date@, r@[k].status@),
                ) as i64)
            &&& (fast ==> forall|i: int|
                0 <= i < s.cells().len() && spec_cell_in_trend(*f, #[trigger] s.cells()[i], sd, ed)
                    ==> exists|k: int|
                    0 <= k < r@.len() && (#[trigger] r@[k]).date@ == s.cells()[i].date@
                        && r@[k].status@ == s.cells()[i].status@)
            &&& (!fast ==> forall|k: int|
                0 <= k < r@.len() ==> (#[trigger] r@[k]).count == spec_clamp(
                    spec_trend_rows(s.facts(), *f, rng.0, rng.1, r@[k].date@, r@[k].status@),
                ) as i64)
            &&& (!fast ==> forall|i: int|
                0 <= i < s.facts().len() && spec_row_in_trend(*f, #[trigger] s.facts()[i], rng.0, rng.1)
                    ==> exists|k: int|
                    0 <= k < r@.len() && (#[trigger] r@[k]).date@ == crate::models::spec_fact_date(
                        s.facts()[i],
                    ) && r@[k].status@ == s.facts()[i].status@)
        }),
{
    let rng = trend_range(f.from_ts, f.to_ts, now);
    let start = rng.0;
    let end = rng.1;
    proof {
        assert(0 <= start <= MAX_TIMESTAMP);
        assert(0 <= end <= MAX_TIMESTAMP);
    }
    let sd_str = date_string_of_timestamp(start);
    let ed_str = date_string_of_timestamp(end);
    let ghost sd = spec_date_of_timestamp(start as int);
    let ghost ed = spec_date_of_timestamp(end as int);
    let fast = use_fast_path(&f.ref_name);
    let mut acc: Vec<DailyStat> = Vec::new();
    if fast {
        let ghost cells = s.cells();
        let mut n: usize = 0;
        proof {
            assert(cells.take(0) =~= Seq::<AggregateCell>::empty());
        }
        while n < s.cell_count()
            invariant
                s.wf(),
                n <= cells.len(),
                cells == s.cells(),
                sd_str@ == sd,
                ed_str@ == ed,
                sd == spec_date_of_timestamp(start as int),
                ed == spec_date_of_timestamp(end as int),
                spec_trend_sorted(acc@),
                spec_trend_keys_unique(acc@),
                forall|k: int|
                    0 <= k < acc@.len() ==> (#[trigger] acc@[k]).count == spec_clamp(
                        spec_trend_cells(
                            cells.take(n as int),
                            *f,
                            sd,
                            ed,
                            acc@[k].date@,
                            acc@[k].status@,
                        ),
                    ) as i64,
                forall|i: int|
                    0 <= i < n && spec_cell_in_trend(*f, #[trigger] cells[i], sd, ed)
                        ==> exists|k: int|
                        0 <= k < acc@.len() && (#[trigger] acc@[k]).date@ == cells[i].date@
                            && acc@[k].status@ == cells[i].status@,
            decreases cells.len() - n,
        {
            let ghost prefix = cells.take(n as int);
            let ghost c_g = cells[n as int];
            proof {
                assert(cells.take(n as int + 1) =~= prefix.push(c_g));
                lemma_cell_bounds(*s, n as int);
            }
            let c = s.cell_at(n);
            let admitted = selector_admits(&f.project_name, c.project_name.as_str())
                && exclusion_keeps(&f.exclude_projects, c.project_name.as_str()) && bytes_le(
                sd_str.as_str().as_bytes(),
                c.date.as_str().as_bytes(),
            ) && bytes_le(c.date.as_str().as_bytes(), ed_str.as_str().as_bytes());
            if admitted {
                let ghost acc0 = acc@;
                let date = c.date.clone();
                let status = c.status.clone();
                let inc = c.count;
                add_bucket(&mut acc, &date, &status, inc);
                proof {
                    assert(spec_cell_in_trend(*f, c_g, sd, ed));
                    if exists|k: int|
                        0 <= k < acc0.len() && (#[trigger] acc0[k]).date@ == date@
                            && acc0[k].status@ == status@ {
                        let k = choose|k: int|
                            0 <= k < acc0.len() && (#[trigger] acc0[k]).date@ == date@
                                && acc0[k].status@ == status@ && acc@ == acc0.update(
                                k,
                                (DailyStat {
                                    date: acc0[k].date,
                                    status: acc0[k].status,
                                    count: spec_clamp(acc0[k].count + inc) as i64,
                                }),
                            );
                        assert forall|k2: int| 0 <= k2 < acc@.len() implies (
                        #[trigger] acc@[k2]).count == spec_clamp(
                            spec_trend_cells(
                                cells.take(n as int + 1),
                                *f,
                                sd,
                                ed,
                                acc@[k2].date@,
                                acc@[k2].status@,
                            ),
                        ) as i64 by {
                            lemma_trend_cells_push(
                                prefix,
                                c_g,
                                *f,
                                sd,
                                ed,
                                acc@[k2].date@,
                                acc@[k2].status@,
                            );
                            if k2 != k {
                                assert(acc@[k2] == acc0[k2]);
                                assert(!(acc0[k2].date@ == acc0[k].date@ && acc0[k2].status@
                                    == acc0[k].status@));
                            } else {
                                assert forall|i: int|
                                    0 <= i < prefix.len() implies (#[trigger] prefix[i]).count
                                    >= 0 by {
                                    assert(prefix[i] == cells[i]);
                                    lemma_cell_bounds(*s, i);
                                }
                                lemma_trend_cells_nonneg(
                                    prefix,
                                    *f,
                                    sd,
                                    ed,
                                    acc@[k2].date@,
                                    acc@[k2].status@,
                                );
                            }
                        }
                        assert forall|i: int|
                            0 <= i < n + 1 && spec_cell_in_trend(*f, #[trigger] cells[i], sd, ed)
                                implies exists|k2: int|
                            0 <= k2 < acc@.len() && (#[trigger] acc@[k2]).date@ == cells[i].date@
                                && acc@[k2].status@ == cells[i].status@ by {
                            if i < n {
                                let k2 = choose|k2: int|
                                    0 <= k2 < acc0.len() && (#[trigger] acc0[k2]).date@
                                        == cells[i].date@ && acc0[k2].status@ == cells[i].status@;
                                assert(acc@[k2].date@ == cells[i].date@ && acc@[k2].status@
                                    == cells[i].status@);
                            } else {
                                assert(acc@[k].date@ == cells[i].date@ && acc@[k].status@
                                    == cells[i].status@);
                            }
                        }
                    } else {
                        let pos = choose|pos: int|
                            0 <= pos <= acc0.len() && acc@ == acc0.insert(
                                pos,
                                (DailyStat { date: date, status: status, count: inc }),
                            );
                        acc0.insert_ensures(
                            pos,
                            (DailyStat { date: date, status: status, count: inc }),
                        );
                        assert forall|k2: int| 0 <= k2 < acc@.len() implies (
                        #[trigger] acc@[k2]).count == spec_clamp(
                            spec_trend_cells(
                                cells.take(n as int + 1),
                                *f,
                                sd,
                                ed,
                                acc@[k2].date@,
                                acc@[k2].status@,
                            ),
                        ) as i64 by {
                            lemma_trend_cells_push(
                                prefix,
                                c_g,
                                *f,
                                sd,
                                ed,
                                acc@[k2].date@,
                                acc@[k2].status@,
                            );
                            if k2 < pos {
                                assert(acc@[k2] == acc0[k2]);
                                assert(!(acc0[k2].date@ == date@ && acc0[k2].status@ == status@));
                            } else if k2 > pos {
                                assert(acc@[k2] == acc0[k2 - 1]);
                                assert(!(acc0[k2 - 1].date@ == date@ && acc0[k2 - 1].status@
                                    == status@));
                            } else {
                                assert(acc@[k2].date@ == date@ && acc@[k2].status@ == status@);
                                assert forall|i: int|
                                    0 <= i < prefix.len() implies !(spec_cell_in_trend(
                                    *f,
                                    #[trigger] prefix[i],
                                    sd,
                                    ed,
                                ) && prefix[i].date@ == date@ && prefix[i].status@ == status@) by {
                                    assert(prefix[i] == cells[i]);
                                    if spec_cell_in_trend(*f, cells[i], sd, ed) && cells[i].date@
                                        == date@ && cells[i].status@ == status@ {
                                        let kw = choose|kw: int|
                                            0 <= kw < acc0.len() && (#[trigger] acc0[kw]).date@
                                                == cells[i].date@ && acc0[kw].status@
                                                == cells[i].status@;
                                        assert(false);
                                    }
                                }
                                lemma_trend_cells_zero(prefix, *f, sd, ed, date@, status@);
                            }
                        }
                        assert forall|i: int|
                            0 <= i < n + 1 && spec_cell_in_trend(*f, #[trigger] cells[i], sd, ed)
                                implies exists|k2: int|
                            0 <= k2 < acc@.len() && (#[trigger] acc@[k2]).date@ == cells[i].date@
                                && acc@[k2].status@ == cells[i].status@ by {
                            if i < n {
                                let k2 = choose|k2: int|
                                    0 <= k2 < acc0.len() && (#[trigger] acc0[k2]).date@
                                        == cells[i].date@ && acc0[k2].status@ == cells[i].status@;
                                if k2 < pos {
                                    assert(acc@[k2].date@ == cells[i].date@ && acc@[k2].status@
                                        == cells[i].status@);
                                } else {
                                    assert(acc@[k2 + 1].date@ == cells[i].date@ && acc@[k2
                                        + 1].status@ == cells[i].status@);
                                }
                            } else {
                                assert(acc@[pos].date@ == cells[i].date@ && acc@[pos].status@
                                    == cells[i].status@);
                            }
                        }
                    }
                }
            } else {
                proof {
                    assert(!spec_cell_in_trend(*f, c_g, sd, ed));
                    assert forall|k2: int| 0 <= k2 < acc@.len() implies (
                    #[trigger] acc@[k2]).count == spec_clamp(
                        spec_trend_cells(
                            cells.take(n as int + 1),
                            *f,
                            sd,
                            ed,
                            acc@[k2].date@,
                            acc@[k2].status@,
                        ),
                    ) as i64 by {
                        lemma_trend_cells_push(
                            prefix,
                            c_g,
                            *f,
                            sd,
                            ed,
                            acc@[k2].date@,
                            acc@[k2].status@,
                        );
                    }
                }
            }
            n = n + 1;
        }
        proof {
            assert(cells.take(n as int) =~= cells);
        }
    } else {
        let ghost rows = s.facts();
        let mut n: usize = 0;
        proof {
            assert(rows.take(0) =~= Seq::<Pipeline>::empty());
        }
        while n < s.fact_count()
            invariant
                s.wf(),
                n <= rows.len(),
                rows == s.facts(),
                start == rng.0,
                end == rng.1,
                spec_trend_sorted(acc@),
                spec_trend_keys_unique(acc@),
                forall|k: int|
                    0 <= k < acc@.len() ==> (#[trigger] acc@[k]).count == spec_clamp(
                        spec_trend_rows(
                            rows.take(n as int),
                            *f,
                            start as int,
                            end as int,
                            acc@[k].date@,
                            acc@[k].status@,
                        ),
                    ) as i64,
                forall|i: int|
                    0 <= i < n && spec_row_in_trend(*f, #[trigger] rows[i], start as int, end as int)
                        ==> exists|k: int|
                        0 <= k < acc@.len() && (#[trigger] acc@[k]).date@
                            == crate::models::spec_fact_date(rows[i]) && acc@[k].status@
                            == rows[i].status@,
            decreases rows.len() - n,
        {
            let ghost prefix = rows.take(n as int);
            let ghost p_g = rows[n as int];
            proof {
                assert(rows.take(n as int + 1) =~= prefix.push(p_g));
                assert(crate::models::fact_ok(p_g));
            }
            let p = s.fact_at(n);
            let admitted = selector_admits(&f.project_name, p.project_full_path.as_str())
                && selector_admits(&f.ref_name, p.ref_name.as_str()) && exclusion_keeps(
                &f.exclude_projects,
                p.project_full_path.as_str(),
            ) && start <= p.created_at && p.created_at <= end;
            if admitted {
                let ghost acc0 = acc@;
                let date = date_string_of_timestamp(p.created_at);
                let status = p.status.clone();
                add_bucket(&mut acc, &date, &status, 1);
                proof {
                    assert(spec_row_in_trend(*f, p_g, start as int, end as int));
                    assert(date@ == crate::models::spec_fact_date(p_g));
                    if exists|k: int|
                        0 <= k < acc0.len() && (#[trigger] acc0[k]).date@ == date@
                            && acc0[k].status@ == status@ {
                        let k = choose|k: int|
                            0 <= k < acc0.len() && (#[trigger] acc0[k]).date@ == date@
                                && acc0[k].status@ == status@ && acc@ == acc0.update(
                                k,
                                (DailyStat {
                                    date: acc0[k].date,
                                    status: acc0[k].status,
                                    count: spec_clamp(acc0[k].count + 1) as i64,
                                }),
                            );
                        assert forall|k2: int| 0 <= k2 < acc@.len() implies (
                        #[trigger] acc@[k2]).count == spec_clamp(
                            spec_trend_rows(
                                rows.take(n as int + 1),
                                *f,
                                start as int,
                                end as int,
                                acc@[k2].date@,
                                acc@[k2].status@,
                            ),
                        ) as i64 by {
                            lemma_trend_rows_push(
                                prefix,
                                p_g,
                                *f,
                                start as int,
                                end as int,
                                acc@[k2].date@,
                                acc@[k2].status@,
                            );
                            if k2 != k {
                                assert(acc@[k2] == acc0[k2]);
                                assert(!(acc0[k2].date@ == acc0[k].date@ && acc0[k2].status@
                                    == acc0[k].status@));
                            } else {
                                lemma_trend_rows_nonneg(
                                    prefix,
                                    *f,
                                    start as int,
                                    end as int,
                                    acc@[k2].date@,
                                    acc@[k2].status@,
                                );
                            }
                        }
                        assert forall|i: int|
                            0 <= i < n + 1 && spec_row_in_trend(
                                *f,
                                #[trigger] rows[i],
                                start as int,
                                end as int,
                            ) implies exists|k2: int|
                            0 <= k2 < acc@.len() && (#[trigger] acc@[k2]).date@
                                == crate::models::spec_fact_date(rows[i]) && acc@[k2].status@
                                == rows[i].status@ by {
                            if i < n {
                                let k2 = choose|k2: int|
                                    0 <= k2 < acc0.len() && (#[trigger] acc0[k2]).date@
                                        == crate::models::spec_fact_date(rows[i]) && acc0[k2].status@
                                        == rows[i].status@;
                                assert(acc@[k2].date@ == crate::models::spec_fact_date(rows[i])
                                    && acc@[k2].status@ == rows[i].status@);
                            } else {
                                assert(acc@[k].date@ == crate::models::spec_fact_date(rows[i])
                                    && acc@[k].status@ == rows[i].status@);
                            }
                        }
                    } else {
                        let pos = choose|pos: int|
                            0 <= pos <= acc0.len() && acc@ == acc0.insert(
                                pos,
                                (DailyStat { date: date, status: status, count: 1 }),
                            );
                        acc0.insert_ensures(pos, (DailyStat { date: date, status: status, count: 1 }));
                        assert forall|k2: int| 0 <= k2 < acc@.len() implies (
                        #[trigger] acc@[k2]).count == spec_clamp(
                            spec_trend_rows(
                                rows.take(n as int + 1),
                                *f,
                                start as int,
                                end as int,
                                acc@[k2].date@,
                                acc@[k2].status@,
                            ),
                        ) as i64 by {
                            lemma_trend_rows_push(
                                prefix,
                                p_g,
                                *f,
                                start as int,
                                end as int,
                                acc@[k2].date@,
                                acc@[k2].status@,
                            );
                            if k2 < pos {
                                assert(acc@[k2] == acc0[k2]);
                                assert(!(acc0[k2].date@ == date@ && acc0[k2].status@ == status@));
                            } else if k2 > pos {
                                assert(acc@[k2] == acc0[k2 - 1]);
                                assert(!(acc0[k2 - 1].date@ == date@ && acc0[k2 - 1].status@
                                    == status@));
                            } else {
                                assert(acc@[k2].date@ == date@ && acc@[k2].status@ == status@);
                                assert forall|i: int|
                                    0 <= i < prefix.len() implies !(spec_row_in_trend(
                                    *f,
                                    #[trigger] prefix[i],
                                    start as int,
                                    end as int,
                                ) && crate::models::spec_fact_date(prefix[i]) == date@
                                    && prefix[i].status@ == status@) by {
                                    assert(prefix[i] == rows[i]);
                                    if spec_row_in_trend(*f, rows[i], start as int, end as int)
                                        && crate::models::spec_fact_date(rows[i]) == date@
                                        && rows[i].status@ == status@ {
                                        let kw = choose|kw: int|
                                            0 <= kw < acc0.len() && (#[trigger] acc0[kw]).date@
                                                == crate::models::spec_fact_date(rows[i])
                                                && acc0[kw].status@ == rows[i].status@;
                                        assert(false);
                                    }
                                }
                                lemma_trend_rows_zero(
                                    prefix,
                                    *f,
                                    start as int,
                                    end as int,
                                    date@,
                                    status@,
                                );
                            }
                        }
                        assert forall|i: int|
                            0 <= i < n + 1 && spec_row_in_trend(
                                *f,
                                #[trigger] rows[i],
                                start as int,
                                end as int,
                            ) implies exists|k2: int|
                            0 <= k2 < acc@.len() && (#[trigger] acc@[k2]).date@
                                == crate::models::spec_fact_date(rows[i]) && acc@[k2].status@
                                == rows[i].status@ by {
                            if i < n {
                                let k2 = choose|k2: int|
                                    0 <= k2 < acc0.len() && (#[trigger] acc0[k2]).date@
                                        == crate::models::spec_fact_date(rows[i]) && acc0[k2].status@
                                        == rows[i].status@;
                                if k2 < pos {
                                    assert(acc@[k2].date@ == crate::models::spec_fact_date(rows[i])
                                        && acc@[k2].status@ == rows[i].status@);
                                } else {
                                    assert(acc@[k2 + 1].date@ == crate::models::spec_fact_date(
                                        rows[i],
                                    ) && acc@[k2 + 1].status@ == rows[i].status@);
                                }
                            } else {
                                assert(acc@[pos].date@ == crate::models::spec_fact_date(rows[i])
                                    && acc@[pos].status@ == rows[i].status@);
                            }
                        }
                    }
                }
            } else {
                proof {
                    assert(!spec_row_in_trend(*f, p_g, start as int, end as int));
                    assert forall|k2: int| 0 <= k2 < acc@.len() implies (
                    #[trigger] acc@[k2]).count == spec_clamp(
                        spec_trend_rows(
                            rows.take(n as int + 1),
                            *f,
                            start as int,
                            end as int,
                            acc@[k2].date@,
                            acc@[k2].status@,
                        ),
                    ) as i64 by {
                        lemma_trend_rows_push(
                            prefix,
                            p_g,
                            *f,
                            start as int,
                            end as int,
                            acc@[k2].date@,
                            acc@[k2].status@,
                        );
                    }
                }
            }
            n = n + 1;
        }
        proof {
            assert(rows.take(n as int) =~= rows);
        }
    }
    acc
}


/// The (count, duration sum, duration count) a project path collects from
/// the fact rows passing the summary filters.
pub open spec fn spec_project_rows(rows: Seq<Pipeline>, f: PipelineFilter, path: Seq<char>) -> (
    int,
    int,
    int,
)
    decreases rows.len(),
{
    if rows.len() == 0 {
        (0int, 0int, 0int)
    } else {
        let t = spec_project_rows(rows.drop_last(), f, path);
        let p = rows.last();
        if spec_row_in_summary(f, p) && p.project_full_path@ == path {
            (t.0 + 1, t.1 + spec_row_dur(p), t.2 + spec_row_has_dur(p))
        } else {
            t
        }
    }
}

/// The (count, duration sum, duration count) a project path collects from
/// the aggregate cells passing the summary filters.
pub open spec fn spec_project_cells(cells: Seq<AggregateCell>, f: PipelineFilter, path: Seq<char>) -> (
    int,
    int,
    int,
)
    decreases cells.len(),
{
    if cells.len() == 0 {
        (0int, 0int, 0int)
    } else {
        let t = spec_project_cells(cells.drop_last(), f, path);
        let c = cells.last();
        if spec_cell_in_summary(f, c) && c.project_name@ == path {
            (t.0 + c.count, t.1 + c.total_duration, t.2 + c.count_with_duration)
        } else {
            t
        }
    }
}

proof fn lemma_project_rows_push(rows: Seq<Pipeline>, p: Pipeline, f: PipelineFilter, path: Seq<char>)
    ensures
        spec_project_rows(rows.push(p), f, path) == ({
            let t = spec_project_rows(rows, f, path);
            if spec_row_in_summary(f, p) && p.project_full_path@ == path {
                (t.0 + 1, t.1 + spec_row_dur(p), t.2 + spec_row_has_dur(p))
            } else {
                t
            }
        }),
{
    assert(rows.push(p).drop_last() =~= rows);
    assert(rows.push(p).last() == p);
}

proof fn lemma_project_cells_push(
    cells: Seq<AggregateCell>,
    c: AggregateCell,
    f: PipelineFilter,
    path: Seq<char>,
)
    ensures
        spec_project_cells(cells.push(c), f, path) == ({
            let t = spec_project_cells(cells, f, path);
            if spec_cell_in_summary(f, c) && c.project_name@ == path {
                (t.0 + c.count, t.1 + c.total_duration, t.2 + c.count_with_duration)
            } else {
                t
            }
        }),
{
    assert(cells.push(c).drop_last() =~= cells);
    assert(cells.push(c).last() == c);
}

proof fn lemma_project_rows_zero(rows: Seq<Pipeline>, f: PipelineFilter, path: Seq<char>)
    requires
        forall|i: int|
            0 <= i < rows.len() ==> !(spec_row_in_summary(f, #[trigger] rows[i])
                && rows[i].project_full_path@ == path),
    ensures
        spec_project_rows(rows, f, path) == (0int, 0int, 0int),
    decreases rows.len(),
{
    if rows.len() > 0 {
        assert(forall|i: int|
            0 <= i < rows.drop_last().len() ==> #[trigger] rows.drop_last()[i] == rows[i]);
        lemma_project_rows_zero(rows.drop_last(), f, path);
    }
}

proof fn lemma_project_cells_zero(cells: Seq<AggregateCell>, f: PipelineFilter, path: Seq<char>)
    requires
        forall|i: int|
            0 <= i < cells.len() ==> !(spec_cell_in_summary(f, #[trigger] cells[i])
                && cells[i].project_name@ == path),
    ensures
        spec_project_cells(cells, f, path) == (0int, 0int, 0int),
    decreases cells.len(),
{
    if cells.len() > 0 {
        assert(forall|i: int|
            0 <= i < cells.drop_last().len() ==> #[trigger] cells.drop_last()[i] == cells[i]);
        lemma_project_cells_zero(cells.drop_last(), f, path);
    }
}

proof fn lemma_project_rows_bounds(rows: Seq<Pipeline>, f: PipelineFilter, path: Seq<char>)
    requires
        forall|i: int|
            0 <= i < rows.len() ==> (#[trigger] rows[i]).duration is Some
                ==> rows[i].duration->Some_0 >= 0,
    ensures
        ({
            let t = spec_project_rows(rows, f, path);
            &&& 0 <= t.0 <= rows.len() * 0x7fffffffffffffff
            &&& 0 <= t.1 <= rows.len() * 0x7fffffffffffffff
            &&& 0 <= t.2 <= rows.len() * 0x7fffffffffffffff
        }),
    decreases rows.len(),
{
    if rows.len() > 0 {
        assert(forall|i: int|
            0 <= i < rows.drop_last().len() ==> #[trigger] rows.drop_last()[i] == rows[i]);
        lemma_project_rows_bounds(rows.drop_last(), f, path);
        assert((rows.len() - 1) * 0x7fffffffffffffff + 0x7fffffffffffffff == rows.len()
            * 0x7fffffffffffffff) by (nonlinear_arith);
        assert(rows[rows.len() - 1].duration is Some ==> rows[rows.len() - 1].duration->Some_0
            >= 0);
    }
}

proof fn lemma_project_cells_bounds(cells: Seq<AggregateCell>, f: PipelineFilter, path: Seq<char>)
    requires
        forall|i: int|
            0 <= i < cells.len() ==> (#[trigger] cells[i]).count >= 0
                && cells[i].total_duration >= 0 && cells[i].count_with_duration >= 0,
    ensures
        ({
            let t = spec_project_cells(cells, f, path);
            &&& 0 <= t.0 <= cells.len() * 0x7fffffffffffffff
            &&& 0 <= t.1 <= cells.len() * 0x7fffffffffffffff
            &&& 0 <= t.2 <= cells.len() * 0x7fffffffffffffff
        }),
    decreases cells.len(),
{
    if cells.len() > 0 {
        assert(forall|i: int|
            0 <= i < cells.drop_last().len() ==> #[trigger] cells.drop_last()[i] == cells[i]);
        lemma_project_cells_bounds(cells.drop_last(), f, path);
        assert((cells.len() - 1) * 0x7fffffffffffffff + 0x7fffffffffffffff == cells.len()
            * 0x7fffffffffffffff) by (nonlinear_arith);
        assert(cells[cells.len() - 1].count <= 0x7fffffffffffffff);
    }
}

/// Add a contribution into the totals of one project path, creating the
/// entry if the path is new.
fn add_project(acc: &mut Vec<ProjectTotals>, path: &String, cnt: u128, dur: u128, dcnt: u128)
    requires
        forall|k1: int, k2: int|
            0 <= k1 < k2 < old(acc)@.len() ==> (#[trigger] old(acc)@[k1]).project_full_path@ != (
            #[trigger] old(acc)@[k2]).project_full_path@,
        forall|k: int|
            0 <= k < old(acc)@.len() && (#[trigger] old(acc)@[k]).project_full_path@ == path@
                ==> old(acc)@[k].count + cnt <= u128::MAX && old(acc)@[k].total_duration + dur
                <= u128::MAX && old(acc)@[k].count_with_duration + dcnt <= u128::MAX,
    ensures
        forall|k1: int, k2: int|
            0 <= k1 < k2 < final(acc)@.len() ==> (#[trigger] final(acc)@[k1]).project_full_path@
                != (#[trigger] final(acc)@[k2]).project_full_path@,
        (exists|k: int|
            0 <= k < old(acc)@.len() && (#[trigger] old(acc)@[k]).project_full_path@ == path@
                && final(acc)@ == old(acc)@.update(
                k,
                (ProjectTotals {
                    project_full_path: old(acc)@[k].project_full_path,
                    count: (old(acc)@[k].count + cnt) as u128,
                    total_duration: (old(acc)@[k].total_duration + dur) as u128,
                    count_with_duration: (old(acc)@[k].count_with_duration + dcnt) as u128,
                    last_status: old(acc)@[k].last_status,
                }),
            )) || ((forall|k: int|
            0 <= k < old(acc)@.len() ==> (#[trigger] old(acc)@[k]).project_full_path@ != path@)
            && final(acc)@ == old(acc)@.push(
            (ProjectTotals {
                project_full_path: *path,
                count: cnt,
                total_duration: dur,
                count_with_duration: dcnt,
                last_status: *path,
            }),
        ) && final(acc)@.last().last_status == *path),
{
    let ghost acc0 = acc@;
    let mut k: usize = 0;
    loop
        invariant
            k <= acc0.len(),
            acc@ == acc0,
            forall|i: int|
                0 <= i < k ==> (#[trigger] acc0[i]).project_full_path@ != path@,
        ensures
            k <= acc0.len(),
            acc@ == acc0,
            forall|i: int|
                0 <= i < k ==> (#[trigger] acc0[i]).project_full_path@ != path@,
            k < acc0.len() ==> acc0[k as int].project_full_path@ == path@,
        decreases acc0.len() - k,
    {
        if k == acc.len() {
            break;
        }
        if acc[k].project_full_path == *path {
            break;
        }
        k = k + 1;
    }
    if k < acc.len() {
        let c0 = acc[k].count;
        let d0 = acc[k].total_duration;
        let w0 = acc[k].count_with_duration;
        acc[k].count = c0 + cnt;
        acc[k].total_duration = d0 + dur;
        acc[k].count_with_duration = w0 + dcnt;
        proof {
            assert(acc@ =~= acc0.update(
                k as int,
                (ProjectTotals {
                    project_full_path: acc0[k as int].project_full_path,
                    count: (acc0[k as int].count + cnt) as u128,
                    total_duration: (acc0[k as int].total_duration + dur) as u128,
                    count_with_duration: (acc0[k as int].count_with_duration + dcnt) as u128,
                    last_status: acc0[k as int].last_status,
                }),
            ));
            assert forall|k1: int, k2: int|
                0 <= k1 < k2 < acc@.len() implies (#[trigger] acc@[k1]).project_full_path@ != (
            #[trigger] acc@[k2]).project_full_path@ by {
                assert(acc@[k1].project_full_path@ == acc0[k1].project_full_path@);
                assert(acc@[k2].project_full_path@ == acc0[k2].project_full_path@);
            }
        }
    } else {
        acc.push(
            ProjectTotals {
                project_full_path: path.clone(),
                count: cnt,
                total_duration: dur,
                count_with_duration: dcnt,
                last_status: path.clone(),
            },
        );
        proof {
            assert forall|k1: int, k2: int|
                0 <= k1 < k2 < acc@.len() implies (#[trigger] acc@[k1]).project_full_path@ != (
            #[trigger] acc@[k2]).project_full_path@ by {
                if k2 < acc0.len() {
                    assert(acc@[k1] == acc0[k1]);
                    assert(acc@[k2] == acc0[k2]);
                } else {
                    assert(acc@[k1] == acc0[k1]);
                    assert(acc@[k2].project_full_path@ == path@);
                }
            }
        }
    }
}


/// Row `j` is at least as recent as every fact row of the same project.
pub open spec fn spec_is_latest_of_path(rows: Seq<Pipeline>, path: Seq<char>, j: int) -> bool {
    forall|j2: int|
        0 <= j2 < rows.len() && (#[trigger] rows[j2]).project_full_path@ == path
            ==> rows[j2].created_at <= rows[j].created_at
}

/// The status of the most recent fact row of a project, across the whole
/// fact table.
fn latest_status_of(s: &Store, path: &String) -> (r: Option<String>)
    ensures
        match r {
            Some(st) => exists|j: int|
                0 <= j < s.facts().len() && (#[trigger] s.facts()[j]).project_full_path@ == path@
                    && s.facts()[j].status@ == st@ && spec_is_latest_of_path(
                    s.facts(),
                    path@,
                    j,
                ),
            None => forall|j: int|
                0 <= j < s.facts().len() ==> (#[trigger] s.facts()[j]).project_full_path@
                    != path@,
        },
{
    let ghost rows = s.facts();
    let mut best: Option<usize> = None;
    let mut n: usize = 0;
    while n < s.fact_count()
        invariant
            n <= rows.len(),
            rows == s.facts(),
            match best {
                Some(b) => b < n && rows[b as int].project_full_path@ == path@ && forall|j2: int|
                    0 <= j2 < n && (#[trigger] rows[j2]).project_full_path@ == path@
                        ==> rows[j2].created_at <= rows[b as int].created_at,
                None => forall|j2: int|
                    0 <= j2 < n ==> (#[trigger] rows[j2]).project_full_path@ != path@,
            },
        decreases rows.len() - n,
    {
        if s.fact_at(n).project_full_path == *path {
            match best {
                Some(b) => {
                    if s.fact_at(n).created_at > s.fact_at(b).created_at {
                        best = Some(n);
                    }
                },
                None => {
                    best = Some(n);
                },
            }
        }
        n = n + 1;
    }
    match best {
        Some(b) => {
            proof {
                assert(rows[b as int].project_full_path@ == path@);
            }
            Some(s.fact_at(b).status.clone())
        },
        None => None,
    }
}

/// Per-project totals under the filters, one entry per project path, with
/// the status of the project's most recent run: from the aggregate table
/// when the ref filter permits the fast path, else from the fact table.
/// The consumer orders the entries by the derived mean duration.
#[verifier::rlimit(100)]
pub fn project_totals(s: &Store, f: &PipelineFilter) -> (r: Vec<ProjectTotals>)
    requires
        s.wf(),
        spec_fast_path(spec_ref_sel(*f)) ==> ((f.from_ts is Some ==> 0 <= f.from_ts->Some_0
            <= MAX_TIMESTAMP) && (f.to_ts is Some ==> 0 <= f.to_ts->Some_0 <= MAX_TIMESTAMP)),
    ensures
        forall|k1: int, k2: int|
            0 <= k1 < k2 < r@.len() ==> (#[trigger] r@[k1]).project_full_path@ != (
            #[trigger] r@[k2]).project_full_path@,
        spec_fast_path(spec_ref_sel(*f)) ==> forall|k: int|
            0 <= k < r@.len() ==> ({
                let t = spec_project_cells(s.cells(), *f, (#[trigger] r@[k]).project_full_path@);
                r@[k].count as int == t.0 && r@[k].total_duration as int == t.1
                    && r@[k].count_with_duration as int == t.2
            }),
        spec_fast_path(spec_ref_sel(*f)) ==> forall|i: int|
            0 <= i < s.cells().len() && spec_cell_in_summary(*f, #[trigger] s.cells()[i])
                ==> exists|k: int|
                0 <= k < r@.len() && (#[trigger] r@[k]).project_full_path@
                    == s.cells()[i].project_name@,
        !spec_fast_path(spec_ref_sel(*f)) ==> forall|k: int|
            0 <= k < r@.len() ==> ({
                let t = spec_project_rows(s.facts(), *f, (#[trigger] r@[k]).project_full_path@);
                r@[k].count as int == t.0 && r@[k].total_duration as int == t.1
                    && r@[k].count_with_duration as int == t.2
            }),
        !spec_fast_path(spec_ref_sel(*f)) ==> forall|i: int|
            0 <= i < s.facts().len() && spec_row_in_summary(*f, #[trigger] s.facts()[i])
                ==> exists|k: int|
                0 <= k < r@.len() && (#[trigger] r@[k]).project_full_path@
                    == s.facts()[i].project_full_path@,
        forall|k: int|
            0 <= k < r@.len() ==> ({
                let path = (#[trigger] r@[k]).project_full_path@;
                if exists|j: int|
                    0 <= j < s.facts().len() && (#[trigger] s.facts()[j]).project_full_path@
                        == path {
                    exists|j: int|
                        0 <= j < s.facts().len() && (#[trigger] s.facts()[j]).project_full_path@
                            == path && s.facts()[j].status@ == r@[k].last_status@
                            && spec_is_latest_of_path(s.facts(), path, j)
                } else {
                    r@[k].last_status@.len() == 0
                }
            }),
{
    let fast = use_fast_path(&f.ref_name);
    let mut acc: Vec<ProjectTotals> = Vec::new();
    if fast {
        let ghost cells = s.cells();
        let from_date: Option<String> = match f.from_ts {
            Some(t) => Some(date_string_of_timestamp(t)),
            None => None,
        };
        let to_date: Option<String> = match f.to_ts {
            Some(t) => Some(date_string_of_timestamp(t)),
            None => None,
        };
        let mut n: usize = 0;
        proof {
            assert(cells.take(0) =~= Seq::<AggregateCell>::empty());
        }
        while n < s.cell_count()
            invariant
                s.wf(),
                n <= cells.len(),
                cells == s.cells(),
                (match f.from_ts {
                    Some(t) => from_date is Some && from_date->Some_0@ == spec_date_of_timestamp(
                        t as int,
                    ),
                    None => from_date is None,
                }),
                (match f.to_ts {
                    Some(t) => to_date is Some && to_date->Some_0@ == spec_date_of_timestamp(
                        t as int,
                    ),
                    None => to_date is None,
                }),
                forall|k1: int, k2: int|
                    0 <= k1 < k2 < acc@.len() ==> (#[trigger] acc@[k1]).project_full_path@ != (
                    #[trigger] acc@[k2]).project_full_path@,
                forall|k: int|
                    0 <= k < acc@.len() ==> ({
                        let t = spec_project_cells(
                            cells.take(n as int),
                            *f,
                            (#[trigger] acc@[k]).project_full_path@,
                        );
                        acc@[k].count as int == t.0 && acc@[k].total_duration as int == t.1
                            && acc@[k].count_with_duration as int == t.2
                    }),
                forall|i: int|
                    0 <= i < n && spec_cell_in_summary(*f, #[trigger] cells[i]) ==> exists|k: int|
                        0 <= k < acc@.len() && (#[trigger] acc@[k]).project_full_path@
                            == cells[i].project_name@,
            decreases cells.len() - n,
        {
            let ghost prefix = cells.take(n as int);
            let ghost c_g = cells[n as int];
            proof {
                assert(cells.take(n as int + 1) =~= prefix.push(c_g));
                lemma_cell_bounds(*s, n as int);
            }
            let c = s.cell_at(n);
            if cell_in_summary(f, &from_date, &to_date, c) {
                let ghost acc0 = acc@;
                let path = c.project_name.clone();
                proof {
                    assert forall|i: int|
                        0 <= i < prefix.len() implies (#[trigger] prefix[i]).count >= 0
                        && prefix[i].total_duration >= 0 && prefix[i].count_with_duration >= 0 by {
                        assert(prefix[i] == cells[i]);
                        lemma_cell_bounds(*s, i);
                    }
                    lemma_project_cells_bounds(prefix, *f, path@);
                    lemma_prefix_fits(n as int, cells.len() as int);
                    vstd::arithmetic::mul::lemma_mul_inequality(
                        n as int,
                        cells.len() as int,
                        0x7fffffffffffffff,
                    );
                }
                add_project(
                    &mut acc,
                    &path,
                    c.count as u128,
                    c.total_duration as u128,
                    c.count_with_duration as u128,
                );
                proof {
                    assert(spec_cell_in_summary(*f, c_g));
                    if exists|k: int|
                        0 <= k < acc0.len() && (#[trigger] acc0[k]).project_full_path@ == path@ {
                        let k = choose|k: int|
                            0 <= k < acc0.len() && (#[trigger] acc0[k]).project_full_path@ == path@
                                && acc@ == acc0.update(
                                k,
                                (ProjectTotals {
                                    project_full_path: acc0[k].project_full_path,
                                    count: (acc0[k].count + c_g.count as u128) as u128,
                                    total_duration: (acc0[k].total_duration + c_g.total_duration
                                        as u128) as u128,
                                    count_with_duration: (acc0[k].count_with_duration
                                        + c_g.count_with_duration as u128) as u128,
                                    last_status: acc0[k].last_status,
                                }),
                            );
                        assert forall|k2: int| 0 <= k2 < acc@.len() implies ({
                            let t = spec_project_cells(
                                cells.take(n as int + 1),
                                *f,
                                (#[trigger] acc@[k2]).project_full_path@,
                            );
                            acc@[k2].count as int == t.0 && acc@[k2].total_duration as int == t.1
                                && acc@[k2].count_with_duration as int == t.2
                        }) by {
                            lemma_project_cells_push(prefix, c_g, *f, acc@[k2].project_full_path@);
                            if k2 != k {
                                assert(acc@[k2] == acc0[k2]);
                                assert(acc0[k2].project_full_path@ != path@);
                            }
                        }
                        assert forall|i: int|
                            0 <= i < n + 1 && spec_cell_in_summary(*f, #[trigger] cells[i])
                                implies exists|k2: int|
                            0 <= k2 < acc@.len() && (#[trigger] acc@[k2]).project_full_path@
                                == cells[i].project_name@ by {
                            if i < n {
                                let k2 = choose|k2: int|
                                    0 <= k2 < acc0.len() && (#[trigger] acc0[k2]).project_full_path@
                                        == cells[i].project_name@;
                                assert(acc@[k2].project_full_path@ == cells[i].project_name@);
                            } else {
                                assert(acc@[k].project_full_path@ == cells[i].project_name@);
                            }
                        }
                    } else {
                        assert(acc@ == acc0.push(
                            (ProjectTotals {
                                project_full_path: path,
                                count: c_g.count as u128,
                                total_duration: c_g.total_duration as u128,
                                count_with_duration: c_g.count_with_duration as u128,
                                last_status: path,
                            }),
                        ));
                        assert forall|k2: int| 0 <= k2 < acc@.len() implies ({
                            let t = spec_project_cells(
                                cells.take(n as int + 1),
                                *f,
                                (#[trigger] acc@[k2]).project_full_path@,
                            );
                            acc@[k2].count as int == t.0 && acc@[k2].total_duration as int == t.1
                                && acc@[k2].count_with_duration as int == t.2
                        }) by {
                            lemma_project_cells_push(prefix, c_g, *f, acc@[k2].project_full_path@);
                            if k2 < acc0.len() {
                                assert(acc@[k2] == acc0[k2]);
                                assert(acc0[k2].project_full_path@ != path@);
                            } else {
                                assert(acc@[k2].project_full_path@ == path@);
                                assert forall|i: int|
                                    0 <= i < prefix.len() implies !(spec_cell_in_summary(
                                    *f,
                                    #[trigger] prefix[i],
                                ) && prefix[i].project_name@ == path@) by {
                                    assert(prefix[i] == cells[i]);
                                    if spec_cell_in_summary(*f, cells[i]) && cells[i].project_name@
                                        == path@ {
                                        let kw = choose|kw: int|
                                            0 <= kw < acc0.len() && (
                                            #[trigger] acc0[kw]).project_full_path@
                                                == cells[i].project_name@;
                                        assert(false);
                                    }
                                }
                                lemma_project_cells_zero(prefix, *f, path@);
                            }
                        }
                        assert forall|i: int|
                            0 <= i < n + 1 && spec_cell_in_summary(*f, #[trigger] cells[i])
                                implies exists|k2: int|
                            0 <= k2 < acc@.len() && (#[trigger] acc@[k2]).project_full_path@
                                == cells[i].project_name@ by {
                            if i < n {
                                let k2 = choose|k2: int|
                                    0 <= k2 < acc0.len() && (#[trigger] acc0[k2]).project_full_path@
                                        == cells[i].project_name@;
                                assert(acc@[k2].project_full_path@ == cells[i].project_name@);
                            } else {
                                assert(acc@[acc0.len() as int].project_full_path@
                                    == cells[i].project_name@);
                            }
                        }
                    }
                }
            } else {
                proof {
                    assert(!spec_cell_in_summary(*f, c_g));
                    assert forall|k2: int| 0 <= k2 < acc@.len() implies ({
                        let t = spec_project_cells(
                            cells.take(n as int + 1),
                            *f,
                            (#[trigger] acc@[k2]).project_full_path@,
                        );
                        acc@[k2].count as int == t.0 && acc@[k2].total_duration as int == t.1
                            && acc@[k2].count_with_duration as int == t.2
                    }) by {
                        lemma_project_cells_push(prefix, c_g, *f, acc@[k2].project_full_path@);
                    }
                }
            }
            n = n + 1;
        }
        proof {
            assert(cells.take(n as int) =~= cells);
        }
    } else {
        let ghost rows = s.facts();
        let mut n: usize = 0;
        proof {
            assert(rows.take(0) =~= Seq::<Pipeline>::empty());
        }
        while n < s.fact_count()
            invariant
                s.wf(),
                n <= rows.len(),
                rows == s.facts(),
                forall|k1: int, k2: int|
                    0 <= k1 < k2 < acc@.len() ==> (#[trigger] acc@[k1]).project_full_path@ != (
                    #[trigger] acc@[k2]).project_full_path@,
                forall|k: int|
                    0 <= k < acc@.len() ==> ({
                        let t = spec_project_rows(
                            rows.take(n as int),
                            *f,
                            (#[trigger] acc@[k]).project_full_path@,
                        );
                        acc@[k].count as int == t.0 && acc@[k].total_duration as int == t.1
                            && acc@[k].count_with_duration as int == t.2
                    }),
                forall|i: int|
                    0 <= i < n && spec_row_in_summary(*f, #[trigger] rows[i]) ==> exists|k: int|
                        0 <= k < acc@.len() && (#[trigger] acc@[k]).project_full_path@
                            == rows[i].project_full_path@,
            decreases rows.len() - n,
        {
            let ghost prefix = rows.take(n as int);
            let ghost p_g = rows[n as int];
            proof {
                assert(rows.take(n as int + 1) =~= prefix.push(p_g));
                assert(crate::models::fact_ok(p_g));
            }
            let p = s.fact_at(n);
            if row_in_summary(f, p) {
                let ghost acc0 = acc@;
                let path = p.project_full_path.clone();
                let inc_dur: u128 = match p.duration {
                    Some(d) => d as u128,
                    None => 0,
                };
                let inc_has: u128 = if p.duration.is_some() {
                    1
                } else {
                    0
                };
                proof {
                    assert forall|i: int|
                        0 <= i < prefix.len() && (#[trigger] prefix[i]).duration is Some
                            implies prefix[i].duration->Some_0 >= 0 by {
                        assert(prefix[i] == rows[i]);
                        assert(crate::models::fact_ok(rows[i]));
                    }
                    lemma_project_rows_bounds(prefix, *f, path@);
                    lemma_prefix_fits(n as int, rows.len() as int);
                    vstd::arithmetic::mul::lemma_mul_inequality(
                        n as int,
                        rows.len() as int,
                        0x7fffffffffffffff,
                    );
                }
                add_project(&mut acc, &path, 1, inc_dur, inc_has);
                proof {
                    assert(spec_row_in_summary(*f, p_g));
                    assert(inc_dur as int == spec_row_dur(p_g));
                    assert(inc_has as int == spec_row_has_dur(p_g));
                    if exists|k: int|
                        0 <= k < acc0.len() && (#[trigger] acc0[k]).project_full_path@ == path@ {
                        let k = choose|k: int|
                            0 <= k < acc0.len() && (#[trigger] acc0[k]).project_full_path@ == path@
                                && acc@ == acc0.update(
                                k,
                                (ProjectTotals {
                                    project_full_path: acc0[k].project_full_path,
                                    count: (acc0[k].count + 1) as u128,
                                    total_duration: (acc0[k].total_duration + inc_dur) as u128,
                                    count_with_duration: (acc0[k].count_with_duration + inc_has)
                                        as u128,
                                    last_status: acc0[k].last_status,
                                }),
                            );
                        assert forall|k2: int| 0 <= k2 < acc@.len() implies ({
                            let t = spec_project_rows(
                                rows.take(n as int + 1),
                                *f,
                                (#[trigger] acc@[k2]).project_full_path@,
                            );
                            acc@[k2].count as int == t.0 && acc@[k2].total_duration as int == t.1
                                && acc@[k2].count_with_duration as int == t.2
                        }) by {
                            lemma_project_rows_push(prefix, p_g, *f, acc@[k2].project_full_path@);
                            if k2 != k {
                                assert(acc@[k2] == acc0[k2]);
                                assert(acc0[k2].project_full_path@ != path@);
                            }
                        }
                        assert forall|i: int|
                            0 <= i < n + 1 && spec_row_in_summary(*f, #[trigger] rows[i])
                                implies exists|k2: int|
                            0 <= k2 < acc@.len() && (#[trigger] acc@[k2]).project_full_path@
                                == rows[i].project_full_path@ by {
                            if i < n {
                                let k2 = choose|k2: int|
                                    0 <= k2 < acc0.len() && (#[trigger] acc0[k2]).project_full_path@
                                        == rows[i].project_full_path@;
                                assert(acc@[k2].project_full_path@ == rows[i].project_full_path@);
                            } else {
                                assert(acc@[k].project_full_path@ == rows[i].project_full_path@);
                            }
                        }
                    } else {
                        assert(acc@ == acc0.push(
                            (ProjectTotals {
                                project_full_path: path,
                                count: 1,
                                total_duration: inc_dur,
                                count_with_duration: inc_has,
                                last_status: path,
                            }),
                        ));
                        assert forall|k2: int| 0 <= k2 < acc@.len() implies ({
                            let t = spec_project_rows(
                                rows.take(n as int + 1),
                                *f,
                                (#[trigger] acc@[k2]).project_full_path@,
                            );
                            acc@[k2].count as int == t.0 && acc@[k2].total_duration as int == t.1
                                && acc@[k2].count_with_duration as int == t.2
                        }) by {
                            lemma_project_rows_push(prefix, p_g, *f, acc@[k2].project_full_path@);
                            if k2 < acc0.len() {
                                assert(acc@[k2] == acc0[k2]);
                                assert(acc0[k2].project_full_path@ != path@);
                            } else {
                                assert(acc@[k2].project_full_path@ == path@);
                                assert forall|i: int|
                                    0 <= i < prefix.len() implies !(spec_row_in_summary(
                                    *f,
                                    #[trigger] prefix[i],
                                ) && prefix[i].project_full_path@ == path@) by {
                                    assert(prefix[i] == rows[i]);
                                    if spec_row_in_summary(*f, rows[i]) && rows[i].project_full_path@
                                        == path@ {
                                        let kw = choose|kw: int|
                                            0 <= kw < acc0.len() && (
                                            #[trigger] acc0[kw]).project_full_path@
                                                == rows[i].project_full_path@;
                                        assert(false);
                                    }
                                }
                                lemma_project_rows_zero(prefix, *f, path@);
                            }
                        }
                        assert forall|i: int|
                            0 <= i < n + 1 && spec_row_in_summary(*f, #[trigger] rows[i])
                                implies exists|k2: int|
                            0 <= k2 < acc@.len() && (#[trigger] acc@[k2]).project_full_path@
                                == rows[i].project_full_path@ by {
                            if i < n {
                                let k2 = choose|k2: int|
                                    0 <= k2 < acc0.len() && (#[trigger] acc0[k2]).project_full_path@
                                        == rows[i].project_full_path@;
                                assert(acc@[k2].project_full_path@ == rows[i].project_full_path@);
                            } else {
                                assert(acc@[acc0.len() as int].project_full_path@
                                    == rows[i].project_full_path@);
                            }
                        }
                    }
                }
            } else {
                proof {
                    assert(!spec_row_in_summary(*f, p_g));
                    assert forall|k2: int| 0 <= k2 < acc@.len() implies ({
                        let t = spec_project_rows(
                            rows.take(n as int + 1),
                            *f,
                            (#[trigger] acc@[k2]).project_full_path@,
                        );
                        acc@[k2].count as int == t.0 && acc@[k2].total_duration as int == t.1
                            && acc@[k2].count_with_duration as int == t.2
                    }) by {
                        lemma_project_rows_push(prefix, p_g, *f, acc@[k2].project_full_path@);
                    }
                }
            }
            n = n + 1;
        }
        proof {
            assert(rows.take(n as int) =~= rows);
        }
    }
    // resolve each project's most recent status
    let ghost acc1 = acc@;
    let mut k: usize = 0;
    while k < acc.len()
        invariant
            s.wf(),
            k <= acc@.len(),
            acc@.len() == acc1.len(),
            forall|k2: int|
                0 <= k2 < acc@.len() ==> (#[trigger] acc@[k2]).project_full_path
                    == acc1[k2].project_full_path && acc@[k2].count == acc1[k2].count
                    && acc@[k2].total_duration == acc1[k2].total_duration
                    && acc@[k2].count_with_duration == acc1[k2].count_with_duration,
            forall|k2: int|
                0 <= k2 < k ==> ({
                    let path = (#[trigger] acc@[k2]).project_full_path@;
                    if exists|j: int|
                        0 <= j < s.facts().len() && (#[trigger] s.facts()[j]).project_full_path@
                            == path {
                        exists|j: int|
                            0 <= j < s.facts().len() && (#[trigger] s.facts()[j]).project_full_path@
                                == path && s.facts()[j].status@ == acc@[k2].last_status@
                                && spec_is_latest_of_path(s.facts(), path, j)
                    } else {
                        acc@[k2].last_status@.len() == 0
                    }
                }),
        decreases acc@.len() - k,
    {
        let st = match latest_status_of(s, &acc[k].project_full_path) {
            Some(st) => st,
            None => String::new(),
        };
        let ghost accb = acc@;
        acc[k].last_status = st;
        proof {
            assert forall|k2: int|
                0 <= k2 < k + 1 implies ({
                let path = (#[trigger] acc@[k2]).project_full_path@;
                if exists|j: int|
                    0 <= j < s.facts().len() && (#[trigger] s.facts()[j]).project_full_path@
                        == path {
                    exists|j: int|
                        0 <= j < s.facts().len() && (#[trigger] s.facts()[j]).project_full_path@
                            == path && s.facts()[j].status@ == acc@[k2].last_status@
                            && spec_is_latest_of_path(s.facts(), path, j)
                } else {
                    acc@[k2].last_status@.len() == 0
                }
            }) by {
                if k2 < k {
                    assert(acc@[k2] == accb[k2]);
                }
            }
        }
        k = k + 1;
    }
    proof {
        if spec_fast_path(spec_ref_sel(*f)) {
            assert forall|i: int|
                0 <= i < s.cells().len() && spec_cell_in_summary(*f, #[trigger] s.cells()[i])
                    implies exists|k2: int|
                0 <= k2 < acc@.len() && (#[trigger] acc@[k2]).project_full_path@
                    == s.cells()[i].project_name@ by {
                let kw = choose|kw: int|
                    0 <= kw < acc1.len() && (#[trigger] acc1[kw]).project_full_path@
                        == s.cells()[i].project_name@;
                assert(acc@[kw].project_full_path@ == s.cells()[i].project_name@);
            }
        } else {
            assert forall|i: int|
                0 <= i < s.facts().len() && spec_row_in_summary(*f, #[trigger] s.facts()[i])
                    implies exists|k2: int|
                0 <= k2 < acc@.len() && (#[trigger] acc@[k2]).project_full_path@
                    == s.facts()[i].project_full_path@ by {
                let kw = choose|kw: int|
                    0 <= kw < acc1.len() && (#[trigger] acc1[kw]).project_full_path@
                        == s.facts()[i].project_full_path@;
                assert(acc@[kw].project_full_path@ == s.facts()[i].project_full_path@);
            }
        }
    }
    acc
}


/// Strings in ascending byte order with no duplicates.
pub open spec fn spec_distinct_sorted(sq: Seq<String>) -> bool {
    &&& forall|i: int, k: int|
        0 <= i <= k < sq.len() ==> spec_bytes_le(
            spec_str_bytes((#[trigger] sq[i])@),
            spec_str_bytes((#[trigger] sq[k])@),
        )
    &&& forall|i: int, k: int| 0 <= i < k < sq.len() ==> (#[trigger] sq[i])@ != (#[trigger] sq[k])@
}

/// Insert a value into an ascending list of distinct strings, unless an
/// equal value is already present.
#[verifier::rlimit(60)]
fn insert_distinct(acc: &mut Vec<String>, value: &String)
    requires
        spec_distinct_sorted(old(acc)@),
    ensures
        spec_distinct_sorted(final(acc)@),
        forall|k: int|
            0 <= k < final(acc)@.len() ==> (#[trigger] final(acc)@[k])@ == value@ || exists|k0: int|
                0 <= k0 < old(acc)@.len() && (#[trigger] old(acc)@[k0])@ == final(acc)@[k]@,
        exists|k: int| 0 <= k < final(acc)@.len() && (#[trigger] final(acc)@[k])@ == value@,
        forall|k0: int|
            0 <= k0 < old(acc)@.len() ==> exists|k: int|
                0 <= k < final(acc)@.len() && (#[trigger] final(acc)@[k])@ == (
                #[trigger] old(acc)@[k0])@,
{
    let ghost acc0 = acc@;
    let mut k: usize = 0;
    loop
        invariant
            k <= acc0.len(),
            acc@ == acc0,
            forall|i: int| 0 <= i < k ==> (#[trigger] acc0[i])@ != value@,
        ensures
            k <= acc0.len(),
            acc@ == acc0,
            forall|i: int| 0 <= i < k ==> (#[trigger] acc0[i])@ != value@,
            k < acc0.len() ==> acc0[k as int]@ == value@,
        decreases acc0.len() - k,
    {
        if k == acc.len() {
            break;
        }
        if acc[k] == *value {
            break;
        }
        k = k + 1;
    }
    if k < acc.len() {
        proof {
            assert(acc@[k as int]@ == value@);
            assert forall|k0: int|
                0 <= k0 < acc0.len() implies exists|k2: int|
                0 <= k2 < acc@.len() && (#[trigger] acc@[k2])@ == (#[trigger] acc0[k0])@ by {
                assert(acc@[k0]@ == acc0[k0]@);
            }
        }
        return ;
    }
    let mut pos: usize = 0;
    loop
        invariant
            pos <= acc0.len(),
            acc@ == acc0,
            forall|i: int|
                0 <= i < pos ==> spec_bytes_le(
                    spec_str_bytes((#[trigger] acc0[i])@),
                    spec_str_bytes(value@),
                ),
        ensures
            pos <= acc0.len(),
            acc@ == acc0,
            forall|i: int|
                0 <= i < pos ==> spec_bytes_le(
                    spec_str_bytes((#[trigger] acc0[i])@),
                    spec_str_bytes(value@),
                ),
            pos < acc0.len() ==> !spec_bytes_le(
                spec_str_bytes(acc0[pos as int]@),
                spec_str_bytes(value@),
            ),
        decreases acc0.len() - pos,
    {
        if pos == acc.len() {
            break;
        }
        if !bytes_le(acc[pos].as_str().as_bytes(), value.as_str().as_bytes()) {
            break;
        }
        pos = pos + 1;
    }
    let entry = value.clone();
    acc.insert(pos, entry);
    proof {
        acc0.insert_ensures(pos as int, *value);
        assert(acc@ == acc0.insert(pos as int, *value));
        lemma_bytes_le_refl(spec_str_bytes(value@));
        if pos < acc0.len() {
            lemma_bytes_le_total(spec_str_bytes(acc0[pos as int]@), spec_str_bytes(value@));
        }
        assert forall|i: int, k2: int|
            0 <= i <= k2 < acc@.len() implies spec_bytes_le(
            spec_str_bytes((#[trigger] acc@[i])@),
            spec_str_bytes((#[trigger] acc@[k2])@),
        ) by {
            if i < pos {
                assert(acc@[i] == acc0[i]);
            }
            if pos < i {
                assert(acc@[i] == acc0[i - 1]);
            }
            if k2 < pos {
                assert(acc@[k2] == acc0[k2]);
            }
            if pos < k2 {
                assert(acc@[k2] == acc0[k2 - 1]);
            }
            if i == pos && pos < k2 {
                if pos < acc0.len() {
                    lemma_bytes_le_trans(
                        spec_str_bytes(value@),
                        spec_str_bytes(acc0[pos as int]@),
                        spec_str_bytes(acc0[k2 - 1]@),
                    );
                }
            }
        }
        assert forall|i: int, k2: int|
            0 <= i < k2 < acc@.len() implies (#[trigger] acc@[i])@ != (#[trigger] acc@[k2])@ by {
            if i < pos {
                assert(acc@[i] == acc0[i]);
            }
            if pos < i {
                assert(acc@[i] == acc0[i - 1]);
            }
            if k2 < pos {
                assert(acc@[k2] == acc0[k2]);
            }
            if pos < k2 {
                assert(acc@[k2] == acc0[k2 - 1]);
            }
        }
        assert(acc@[pos as int]@ == value@);
        assert forall|k0: int|
            0 <= k0 < acc0.len() implies exists|k2: int|
            0 <= k2 < acc@.len() && (#[trigger] acc@[k2])@ == (#[trigger] acc0[k0])@ by {
            if k0 < pos {
                assert(acc@[k0]@ == acc0[k0]@);
            } else {
                assert(acc@[k0 + 1]@ == acc0[k0]@);
            }
        }
    }
}

/// Some fact row carries this project path.
pub open spec fn spec_has_path(rows: Seq<Pipeline>, v: Seq<char>) -> bool {
    exists|j: int| 0 <= j < rows.len() && (#[trigger] rows[j]).project_full_path@ == v
}

/// Some fact row carries this ref name.
pub open spec fn spec_has_ref(rows: Seq<Pipeline>, v: Seq<char>) -> bool {
    exists|j: int| 0 <= j < rows.len() && (#[trigger] rows[j]).ref_name@ == v
}

/// The list holds this string value.
pub open spec fn spec_value_listed(sq: Seq<String>, v: Seq<char>) -> bool {
    exists|k: int| 0 <= k < sq.len() && (#[trigger] sq[k])@ == v
}

/// The distinct project paths of the fact table, in ascending byte order.
#[verifier::rlimit(100)]
pub fn list_projects(s: &Store) -> (r: Vec<String>)
    ensures
        spec_distinct_sorted(r@),
        forall|k: int| 0 <= k < r@.len() ==> spec_has_path(s.facts(), (#[trigger] r@[k])@),
        forall|j: int|
            0 <= j < s.facts().len() ==> spec_value_listed(
                r@,
                (#[trigger] s.facts()[j]).project_full_path@,
            ),
{
    let ghost rows = s.facts();
    let mut acc: Vec<String> = Vec::new();
    let mut n: usize = 0;
    while n < s.fact_count()
        invariant
            n <= rows.len(),
            rows == s.facts(),
            spec_distinct_sorted(acc@),
            forall|k: int| 0 <= k < acc@.len() ==> spec_has_path(rows, (#[trigger] acc@[k])@),
            forall|j: int|
                0 <= j < n ==> spec_value_listed(acc@, (#[trigger] rows[j]).project_full_path@),
        decreases rows.len() - n,
    {
        let ghost acc0 = acc@;
        let value = s.fact_at(n).project_full_path.clone();
        insert_distinct(&mut acc, &value);
        proof {
            assert forall|k: int| 0 <= k < acc@.len() implies spec_has_path(
                rows,
                (#[trigger] acc@[k])@,
            ) by {
                if acc@[k]@ == value@ {
                    assert(rows[n as int].project_full_path@ == acc@[k]@);
                } else {
                    let k0 = choose|k0: int|
                        0 <= k0 < acc0.len() && (#[trigger] acc0[k0])@ == acc@[k]@;
                    assert(spec_has_path(rows, acc0[k0]@));
                }
            }
            assert forall|j: int| 0 <= j < n + 1 implies spec_value_listed(
                acc@,
                (#[trigger] rows[j]).project_full_path@,
            ) by {
                if j < n {
                    let k0 = choose|k0: int|
                        0 <= k0 < acc0.len() && (#[trigger] acc0[k0])@
                            == rows[j].project_full_path@;
                    let k = choose|k: int|
                        0 <= k < acc@.len() && (#[trigger] acc@[k])@ == (#[trigger] acc0[k0])@;
                    assert(acc@[k]@ == rows[j].project_full_path@);
                } else {
                    let k = choose|k: int| 0 <= k < acc@.len() && (#[trigger] acc@[k])@ == value@;
                    assert(acc@[k]@ == rows[j].project_full_path@);
                }
            }
        }
        n = n + 1;
    }
    acc
}

/// The distinct ref names of the fact table, in ascending byte order.
#[verifier::rlimit(100)]
pub fn list_refs(s: &Store) -> (r: Vec<String>)
    ensures
        spec_distinct_sorted(r@),
        forall|k: int| 0 <= k < r@.len() ==> spec_has_ref(s.facts(), (#[trigger] r@[k])@),
        forall|j: int|
            0 <= j < s.facts().len() ==> spec_value_listed(
                r@,
                (#[trigger] s.facts()[j]).ref_name@,
            ),
{
    let ghost rows = s.facts();
    let mut acc: Vec<String> = Vec::new();
    let mut n: usize = 0;
    while n < s.fact_count()
        invariant
            n <= rows.len(),
            rows == s.facts(),
            spec_distinct_sorted(acc@),
            forall|k: int| 0 <= k < acc@.len() ==> spec_has_ref(rows, (#[trigger] acc@[k])@),
            forall|j: int|
                0 <= j < n ==> spec_value_listed(acc@, (#[trigger] rows[j]).ref_name@),
        decreases rows.len() - n,
    {
        let ghost acc0 = acc@;
        let value = s.fact_at(n).ref_name.clone();
        insert_distinct(&mut acc, &value);
        proof {
            assert forall|k: int| 0 <= k < acc@.len() implies spec_has_ref(
                rows,
                (#[trigger] acc@[k])@,
            ) by {
                if acc@[k]@ == value@ {
                    assert(rows[n as int].ref_name@ == acc@[k]@);
                } else {
                    let k0 = choose|k0: int|
                        0 <= k0 < acc0.len() && (#[trigger] acc0[k0])@ == acc@[k]@;
                    assert(spec_has_ref(rows, acc0[k0]@));
                }
            }
            assert forall|j: int| 0 <= j < n + 1 implies spec_value_listed(
                acc@,
                (#[trigger] rows[j]).ref_name@,
            ) by {
                if j < n {
                    let k0 = choose|k0: int|
                        0 <= k0 < acc0.len() && (#[trigger] acc0[k0])@ == rows[j].ref_name@;
                    let k = choose|k: int|
                        0 <= k < acc@.len() && (#[trigger] acc@[k])@ == (#[trigger] acc0[k0])@;
                    assert(acc@[k]@ == rows[j].ref_name@);
                } else {
                    let k = choose|k: int| 0 <= k < acc@.len() && (#[trigger] acc@[k])@ == value@;
                    assert(acc@[k]@ == rows[j].ref_name@);
                }
            }
        }
        n = n + 1;
    }
    acc
}

} // verus!
