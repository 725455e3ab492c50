//! Query filters: the string-coded selector grammar (single value, `All`,
//! or a comma-separated list), the exclusion list, the ref-driven fast/slow
//! routing, the trend range defaulting, and the branch-name filter.

use vstd::prelude::*;
use vstd::string::StringExecFns;
use vstd::string::StringSliceAdditionalSpecFns;

verus! {

/// The UTF-8 bytes of a string value.
pub open spec fn spec_str_bytes(s: Seq<char>) -> Seq<u8> {
    vstd::utf8::encode_utf8(s)
}

/// The filters a dashboard query may carry; every field is optional.
pub struct PipelineFilter {
    pub project_name: Option<String>,
    pub ref_name: Option<String>,
    pub exclude_projects: Option<String>,
    pub status: Option<String>,
    pub from_ts: Option<i64>,
    pub to_ts: Option<i64>,
}

pub open spec fn spec_is_space(b: u8) -> bool {
    b == 32 || b == 9 || b == 10 || b == 13
}

/// The bytes with ASCII whitespace removed from both ends.
pub open spec fn spec_trim_bytes(s: Seq<u8>) -> Seq<u8>
    decreases s.len(),
{
    if s.len() == 0 {
        s
    } else if spec_is_space(s.first()) {
        spec_trim_bytes(s.drop_first())
    } else if spec_is_space(s.last()) {
        spec_trim_bytes(s.drop_last())
    } else {
        s
    }
}

/// Index of the first comma, or the length if there is none.
pub open spec fn spec_first_comma(s: Seq<u8>) -> int
    decreases s.len(),
{
    if s.len() == 0 {
        0
    } else if s.first() == 44 {
        0
    } else {
        1 + spec_first_comma(s.drop_first())
    }
}

/// Whether some comma-separated item of `s` equals `v`, the items trimmed
/// when `trim` is set.
pub open spec fn spec_list_match(s: Seq<u8>, v: Seq<u8>, trim: bool) -> bool
    decreases s.len(),
    via spec_list_match_decreases
{
    let i = spec_first_comma(s);
    let part = if trim {
        spec_trim_bytes(s.take(i))
    } else {
        s.take(i)
    };
    if i >= s.len() {
        part == v
    } else {
        part == v || spec_list_match(s.skip(i + 1), v, trim)
    }
}

#[via_fn]
proof fn spec_list_match_decreases(s: Seq<u8>, v: Seq<u8>, trim: bool) {
    lemma_first_comma_bounds(s);
}

pub open spec fn spec_all_bytes() -> Seq<u8> {
    seq![65u8, 108u8, 108u8]
}

/// The inclusion-selector grammar: absent, `All` and the empty string admit
/// everything; a value with commas admits the values of its trimmed items;
/// any other value admits exactly itself.
pub open spec fn spec_selector_admits(sel: Option<Seq<u8>>, v: Seq<u8>) -> bool {
    match sel {
        None => true,
        Some(s) => {
            if s == spec_all_bytes() || s.len() == 0 {
                true
            } else if spec_first_comma(s) < s.len() {
                spec_list_match(s, v, true)
            } else {
                s == v
            }
        },
    }
}

/// The exclusion grammar: absent and empty exclude nothing; otherwise the
/// untrimmed comma-separated items are excluded.
pub open spec fn spec_exclusion_keeps(sel: Option<Seq<u8>>, v: Seq<u8>) -> bool {
    match sel {
        None => true,
        Some(s) => {
            if s.len() == 0 {
                true
            } else {
                !spec_list_match(s, v, false)
            }
        },
    }
}

proof fn lemma_first_comma_bounds(s: Seq<u8>)
    ensures
        0 <= spec_first_comma(s) <= s.len(),
        forall|k: int| 0 <= k < spec_first_comma(s) ==> #[trigger] s[k] != 44,
        spec_first_comma(s) < s.len() ==> s[spec_first_comma(s)] == 44,
    decreases s.len(),
{
    if s.len() > 0 && s.first() != 44 {
        lemma_first_comma_bounds(s.drop_first());
        assert forall|k: int| 0 <= k < spec_first_comma(s) implies #[trigger] s[k] != 44 by {
            if k > 0 {
                assert(s.drop_first()[k - 1] != 44);
            }
        }
    }
}

proof fn lemma_first_comma_at(s: Seq<u8>, i: int)
    requires
        0 <= i <= s.len(),
        forall|k: int| 0 <= k < i ==> #[trigger] s[k] != 44,
        i < s.len() ==> s[i] == 44,
    ensures
        spec_first_comma(s) == i,
    decreases i,
{
    if i == 0 {
        if s.len() > 0 {
            assert(s.first() == 44);
        }
    } else {
        assert(s.first() != 44);
        let t = s.drop_first();
        assert(forall|k: int| 0 <= k < i - 1 ==> #[trigger] t[k] != 44);
        assert(i - 1 < t.len() ==> t[i - 1] == 44);
        lemma_first_comma_at(t, i - 1);
    }
}

/// Byte equality of two slices.
fn bytes_eq(a: &[u8], b: &[u8]) -> (r: bool)
    ensures
        r == (a@ == b@),
{
    if a.len() != b.len() {
        proof {
            assert(a@.len() != b@.len());
        }
        return false;
    }
    let mut i: usize = 0;
    while i < a.len()
        invariant
            i <= a@.len(),
            a@.len() == b@.len(),
            forall|k: int| 0 <= k < i ==> #[trigger] a@[k] == b@[k],
        decreases a@.len() - i,
    {
        if a[i] != b[i] {
            return false;
        }
        i = i + 1;
    }
    proof {
        assert(a@ =~= b@);
    }
    true
}

/// Whether the bytes of `s` in `[lo, hi)`, optionally trimmed, equal `v`.
fn range_matches(s: &[u8], lo: usize, hi: usize, v: &[u8], trim: bool) -> (r: bool)
    requires
        lo <= hi <= s@.len(),
    ensures
        r == if trim {
            spec_trim_bytes(s@.subrange(lo as int, hi as int)) == v@
        } else {
            s@.subrange(lo as int, hi as int) == v@
        },
{
    let mut a: usize = lo;
    let mut b: usize = hi;
    if trim {
        loop
            invariant
                lo <= a <= b <= hi <= s@.len(),
                spec_trim_bytes(s@.subrange(lo as int, hi as int)) == spec_trim_bytes(
                    s@.subrange(a as int, b as int),
                ),
            ensures
                a <= b <= s@.len(),
                spec_trim_bytes(s@.subrange(lo as int, hi as int)) == s@.subrange(
                    a as int,
                    b as int,
                ),
            decreases b - a,
        {
            if a == b {
                proof {
                    assert(s@.subrange(a as int, b as int) =~= Seq::<u8>::empty());
                }
                break;
            }
            let first = s[a];
            if first == 32 || first == 9 || first == 10 || first == 13 {
                proof {
                    assert(s@.subrange(a as int, b as int).drop_first() =~= s@.subrange(
                        a as int + 1,
                        b as int,
                    ));
                }
                a = a + 1;
                continue;
            }
            let last = s[b - 1];
            if last == 32 || last == 9 || last == 10 || last == 13 {
                proof {
                    assert(s@.subrange(a as int, b as int).drop_last() =~= s@.subrange(
                        a as int,
                        b as int - 1,
                    ));
                }
                b = b - 1;
                continue;
            }
            break;
        }
    }
    let mut i: usize = a;
    if b - a != v.len() {
        proof {
            assert(s@.subrange(a as int, b as int).len() != v@.len());
        }
        return false;
    }
    while i < b
        invariant
            lo <= a <= i <= b <= s@.len(),
            a <= b <= hi <= s@.len(),
            b - a == v@.len(),
            if trim {
                spec_trim_bytes(s@.subrange(lo as int, hi as int)) == s@.subrange(a as int, b as int)
            } else {
                a == lo && b == hi
            },
            forall|k: int| a <= k < i ==> #[trigger] s@[k] == v@[k - a],
        decreases b - i,
    {
        if s[i] != v[i - a] {
            proof {
                assert(s@.subrange(a as int, b as int)[i - a] != v@[i - a]);
            }
            return false;
        }
        i = i + 1;
    }
    proof {
        assert(s@.subrange(a as int, b as int) =~= v@);
    }
    true
}

/// Whether some comma-separated item of `s` equals `v`.
fn list_match(s: &[u8], v: &[u8], trim: bool) -> (r: bool)
    ensures
        r == spec_list_match(s@, v@, trim),
{
    let mut start: usize = 0;
    proof {
        assert(s@.skip(0) =~= s@);
    }
    loop
        invariant
            start <= s@.len(),
            spec_list_match(s@, v@, trim) == spec_list_match(
                s@.skip(start as int),
                v@,
                trim,
            ),
        ensures
            spec_list_match(s@, v@, trim) == spec_list_match(s@.skip(start as int), v@, trim),
            start <= s@.len(),
        decreases s@.len() - start,
    {
        let ghost rest = s@.skip(start as int);
        let mut j: usize = start;
        loop
            invariant
                start <= j <= s@.len(),
                forall|k: int| start <= k < j ==> #[trigger] s@[k] != 44,
            ensures
                start <= j <= s@.len(),
                forall|k: int| start <= k < j ==> #[trigger] s@[k] != 44,
                j < s@.len() ==> s@[j as int] == 44,
            decreases s@.len() - j,
        {
            if j == s.len() {
                break;
            }
            if s[j] == 44 {
                break;
            }
            j = j + 1;
        }
        proof {
            assert forall|k: int| 0 <= k < j - start implies #[trigger] rest[k] != 44 by {
                assert(rest[k] == s@[start + k]);
            }
            if j < s@.len() {
                assert(rest[j - start] == s@[j as int]);
            }
            lemma_first_comma_at(rest, j - start);
            assert(rest.take(j - start) =~= s@.subrange(start as int, j as int));
        }
        if range_matches(s, start, j, v, trim) {
            return true;
        }
        if j == s.len() {
            return false;
        }
        proof {
            assert(rest.skip(j - start + 1) =~= s@.skip(j as int + 1));
        }
        start = j + 1;
    }
}

/// Whether the inclusion selector admits `value`.
pub fn selector_admits(sel: &Option<String>, value: &str) -> (r: bool)
    ensures
        r == spec_selector_admits(
            match sel {
                Some(s) => Some(spec_str_bytes(s@)),
                None => None,
            },
            spec_str_bytes(value@),
        ),
{
    let s = match sel {
        Some(s) => s,
        None => {
            return true;
        },
    };
    let bytes = s.as_str().as_bytes();
    if bytes.len() == 0 {
        return true;
    }
    if bytes.len() == 3 && bytes[0] == 65 && bytes[1] == 108 && bytes[2] == 108 {
        proof {
            assert(bytes@ =~= spec_all_bytes());
        }
        return true;
    }
    proof {
        assert(bytes@ != spec_all_bytes());
    }
    let mut j: usize = 0;
    loop
        invariant
            j <= bytes@.len(),
            forall|k: int| 0 <= k < j ==> #[trigger] bytes@[k] != 44,
        ensures
            j <= bytes@.len(),
            forall|k: int| 0 <= k < j ==> #[trigger] bytes@[k] != 44,
            j < bytes@.len() ==> bytes@[j as int] == 44,
        decreases bytes@.len() - j,
    {
        if j == bytes.len() {
            break;
        }
        if bytes[j] == 44 {
            break;
        }
        j = j + 1;
    }
    proof {
        lemma_first_comma_at(bytes@, j as int);
    }
    if j < bytes.len() {
        list_match(bytes, value.as_bytes(), true)
    } else {
        bytes_eq(bytes, value.as_bytes())
    }
}

/// Whether the exclusion selector keeps `value`.
pub fn exclusion_keeps(sel: &Option<String>, value: &str) -> (r: bool)
    ensures
        r == spec_exclusion_keeps(
            match sel {
                Some(s) => Some(spec_str_bytes(s@)),
                None => None,
            },
            spec_str_bytes(value@),
        ),
{
    let s = match sel {
        Some(s) => s,
        None => {
            return true;
        },
    };
    let bytes = s.as_str().as_bytes();
    if bytes.len() == 0 {
        return true;
    }
    !list_match(bytes, value.as_bytes(), false)
}

/// Aggregate queries read the pre-computed table exactly when the ref
/// filter is absent or `All`; any other ref filter forces the fact table.
pub open spec fn spec_fast_path(ref_name: Option<Seq<char>>) -> bool {
    match ref_name {
        None => true,
        Some(r) => r == "All"@,
    }
}

/// The fast/slow routing decision for an aggregate query.
pub fn use_fast_path(ref_name: &Option<String>) -> (r: bool)
    ensures
        r == spec_fast_path(
            match ref_name {
                Some(s) => Some(s@),
                None => None,
            },
        ),
{
    match ref_name {
        Some(s) => {
            let all = alloc_all_string();
            *s == all
        },
        None => true,
    }
}

/// The string `All`.
fn alloc_all_string() -> (r: String)
    ensures
        r@ == "All"@,
{
    let mut out = String::new();
    out.append("All");
    proof {
        assert(out@ =~= "All"@);
    }
    out
}

/// The trend range policy: the end defaults to now, the start to thirty
/// days before now, and a range shorter than one day is widened to the week
/// before its end.
pub open spec fn spec_trend_range(from_ts: Option<i64>, to_ts: Option<i64>, now: int) -> (int, int) {
    let end = if to_ts is Some {
        to_ts->Some_0 as int
    } else {
        now
    };
    let start = if from_ts is Some {
        from_ts->Some_0 as int
    } else {
        now - 2592000
    };
    if end - start < 86400 {
        (end - 604800, end)
    } else {
        (start, end)
    }
}

/// Resolve the trend range from the optional bounds and the current time.
pub fn trend_range(from_ts: Option<i64>, to_ts: Option<i64>, now: i64) -> (r: (i64, i64))
    requires
        -4000000000000000000 <= now <= 4000000000000000000,
        from_ts is Some ==> -4000000000000000000 <= from_ts->Some_0 <= 4000000000000000000,
        to_ts is Some ==> -4000000000000000000 <= to_ts->Some_0 <= 4000000000000000000,
    ensures
        (r.0 as int, r.1 as int) == spec_trend_range(from_ts, to_ts, now as int),
{
    let end: i64 = match to_ts {
        Some(t) => t,
        None => now,
    };
    let start: i64 = match from_ts {
        Some(t) => t,
        None => now - 2592000,
    };
    if end - start < 86400 {
        (end - 604800, end)
    } else {
        (start, end)
    }
}


#[verifier::external_type_specification]
#[verifier::external_body]
pub struct ExRegex(regex::Regex);

/// Whether the regular expression written `pattern` matches `text`: a
/// function of the pattern and the text alone.
pub uninterp spec fn regex_match(pattern: Seq<char>, text: Seq<char>) -> bool;

/// A compiled branch-name filter, kept with the pattern it was built from.
pub struct BranchFilter {
    re: regex::Regex,
    pattern: String,
}

impl BranchFilter {
    /// The pattern this filter was compiled from.
    pub closed spec fn pattern_of(self) -> Seq<char> {
        self.pattern@
    }

    /// Relies on `regex::Regex::new`: an accepted pattern compiles to a
    /// matcher for that pattern; a rejected pattern yields nothing.
    #[verifier::external_body]
    pub fn compile(pattern: &str) -> (r: Option<BranchFilter>)
        ensures
            r is Some ==> r->Some_0.pattern_of() == pattern@,
    {
        match regex::Regex::new(pattern) {
            Ok(re) => Some(BranchFilter { re, pattern: pattern.to_owned() }),
            Err(_) => None,
        }
    }

    /// Relies on `regex::Regex::is_match`: whether the text matches is
    /// decided by the compiled pattern and the text alone.
    #[verifier::external_body]
    pub fn is_match(&self, text: &str) -> (r: bool)
        ensures
            r == regex_match(self.pattern_of(), text@),
    {
        self.re.is_match(text)
    }
}

/// The ingestion skip decision: with a configured branch filter, a
/// pipeline whose ref does not match the pattern is skipped before the
/// upsert; without one nothing is skipped.
pub fn skip_ref(filter: &Option<BranchFilter>, ref_name: &str) -> (r: bool)
    ensures
        r == (match filter {
            Some(f) => !regex_match(f.pattern_of(), ref_name@),
            None => false,
        }),
{
    match filter {
        Some(f) => !f.is_match(ref_name),
        None => false,
    }
}

} // verus!
