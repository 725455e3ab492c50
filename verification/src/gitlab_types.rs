//! The shapes the forge's GraphQL and REST answers are decoded into, and
//! their normalization into fact rows: global-id parsing, status
//! lowercasing, timestamp parsing, the duration fallback, and the
//! synthesized per-pipeline web URL.

use vstd::prelude::*;
use vstd::string::StringExecFns;
use vstd::string::StringSliceAdditionalSpecFns;
use crate::models::Pipeline;
use crate::models::spec_status_terminal;
use crate::strutil::spec_decimal_str;
use crate::strutil::spec_lower_char;
use crate::strutil::to_lowercase_ascii;
use crate::strutil::u64_to_string;

verus! {

/// A project as the REST enumeration returns it; the last activity time is
/// kept as unix seconds.
pub struct ProjectInfo {
    pub id: u64,
    pub name: String,
    pub path_with_namespace: String,
    pub last_activity_at: Option<i64>,
}

/// A pipeline as the GraphQL incremental query returns it; timestamps are
/// RFC 3339 text.
pub struct PipelineInfo {
    pub id: u64,
    pub sha: String,
    pub status: String,
    pub created_at: String,
    pub finished_at: Option<String>,
    pub duration: Option<u64>,
    pub ref_name: String,
    pub web_url: Option<String>,
    pub user: UserInfo,
}

/// The user a pipeline belongs to.
pub struct UserInfo {
    pub name: String,
}

/// A project together with the pipelines the incremental query found in its
/// window.
pub struct ProjectPipelineInfo {
    pub id: u64,
    pub name: String,
    pub full_path: String,
    pub web_url: Option<String>,
    pub pipelines: Vec<PipelineInfo>,
}

/// One project node of a GraphQL group page.
pub struct ProjectNode {
    pub id: u64,
    pub name: String,
    pub full_path: String,
    pub web_url: Option<String>,
    pub pipelines: Option<PipelineConnection>,
}

/// One page of project nodes.
pub struct ProjectConnection {
    pub page_info: Option<PageInfo>,
    pub nodes: Option<Vec<ProjectNode>>,
}

/// The cursor state of a GraphQL page.
pub struct PageInfo {
    pub end_cursor: Option<String>,
    pub has_next_page: bool,
}

/// The pipelines of one project node.
pub struct PipelineConnection {
    pub nodes: Option<Vec<PipelineInfo>>,
}

/// A pipeline as the REST listing returns it; timestamps are unix seconds.
/// The forge's `updated_at` arrives in `finished_at`, and stands for the
/// finish time only once the run is over.
pub struct GitlabPipeline {
    pub id: u64,
    pub ref_name: String,
    pub sha: String,
    pub status: String,
    pub created_at: i64,
    pub finished_at: Option<i64>,
    pub web_url: Option<String>,
    pub duration: Option<u64>,
}

/// The bytes after the last `/` of a global-id string (the whole string if
/// it has none).
pub open spec fn spec_last_segment(bytes: Seq<u8>) -> Seq<u8>
    decreases bytes.len(),
{
    if bytes.len() == 0 {
        bytes
    } else if bytes.last() == 47 {
        Seq::<u8>::empty()
    } else {
        spec_last_segment(bytes.drop_last()).push(bytes.last())
    }
}

/// Whether `bytes` is a non-empty run of ASCII digits.
pub open spec fn spec_all_digits(bytes: Seq<u8>) -> bool {
    bytes.len() > 0 && forall|i: int| 0 <= i < bytes.len() ==> 48 <= #[trigger] bytes[i] <= 57
}

/// The number the digit bytes spell, most significant first.
pub open spec fn spec_digits_val(bytes: Seq<u8>) -> int
    decreases bytes.len(),
{
    if bytes.len() == 0 {
        0
    } else {
        spec_digits_val(bytes.drop_last()) * 10 + (bytes.last() - 48)
    }
}

proof fn lemma_digits_val_nonneg(bytes: Seq<u8>)
    requires
        forall|i: int| 0 <= i < bytes.len() ==> 48 <= #[trigger] bytes[i] <= 57,
    ensures
        spec_digits_val(bytes) >= 0,
    decreases bytes.len(),
{
    if bytes.len() > 0 {
        assert(forall|i: int| 0 <= i < bytes.drop_last().len() ==> 48 <= #[trigger] bytes.drop_last()[i] <= 57);
        lemma_digits_val_nonneg(bytes.drop_last());
    }
}

proof fn lemma_digits_prefix_le(bytes: Seq<u8>, n: int)
    requires
        forall|i: int| 0 <= i < bytes.len() ==> 48 <= #[trigger] bytes[i] <= 57,
        0 <= n <= bytes.len(),
    ensures
        spec_digits_val(bytes.take(n)) <= spec_digits_val(bytes),
    decreases bytes.len() - n,
{
    if n == bytes.len() {
        assert(bytes.take(n) =~= bytes);
    } else {
        assert(bytes.take(n + 1) =~= bytes.take(n).push(bytes[n]));
        assert(bytes.take(n + 1).drop_last() =~= bytes.take(n));
        assert(forall|i: int| 0 <= i < bytes.take(n).len() ==> 48 <= #[trigger] bytes.take(n)[i]
            <= 57);
        lemma_digits_val_nonneg(bytes.take(n));
        lemma_digits_prefix_le(bytes, n + 1);
    }
}

proof fn lemma_last_segment_from(bytes: Seq<u8>, start: int)
    requires
        0 <= start <= bytes.len(),
        forall|k: int| start <= k < bytes.len() ==> #[trigger] bytes[k] != 47,
        start > 0 ==> bytes[start - 1] == 47,
    ensures
        spec_last_segment(bytes) == bytes.subrange(start, bytes.len() as int),
    decreases bytes.len(),
{
    if start == bytes.len() {
        if bytes.len() > 0 {
            assert(bytes.last() == 47);
        }
        assert(spec_last_segment(bytes) =~= bytes.subrange(start, bytes.len() as int));
    } else {
        assert(bytes.last() != 47);
        let head = bytes.drop_last();
        assert(forall|k: int| start <= k < head.len() ==> #[trigger] head[k] != 47);
        lemma_last_segment_from(head, start);
        assert(bytes.subrange(start, bytes.len() as int) =~= head.subrange(
            start,
            head.len() as int,
        ).push(bytes.last()));
    }
}

/// Extract the numeric tail of an opaque global id: the value of the digits
/// after the last `/`, or nothing if that tail is empty, not all digits, or
/// too large.
pub fn parse_gid(s: &str) -> (r: Option<u64>)
    ensures
        (r is Some <==> spec_all_digits(spec_last_segment(s.spec_bytes())) && spec_digits_val(
            spec_last_segment(s.spec_bytes()),
        ) <= u64::MAX as int),
        r is Some ==> r->Some_0 == spec_digits_val(spec_last_segment(s.spec_bytes())),
{
    let bytes = s.as_bytes();
    let ghost bs = s.spec_bytes();
    let mut start: usize = 0;
    let mut i: usize = bytes.len();
    loop
        invariant_except_break
            forall|k: int| i <= k < bs.len() ==> #[trigger] bs[k] != 47,
        invariant
            i <= bs.len(),
            bytes@ == bs,
        ensures
            start <= bs.len(),
            forall|k: int| start <= k < bs.len() ==> #[trigger] bs[k] != 47,
            start > 0 ==> bs[start as int - 1] == 47,
        decreases i,
    {
        if i == 0 {
            start = 0;
            break;
        }
        i = i - 1;
        if bytes[i] == 47 {
            start = i + 1;
            break;
        }
    }
    proof {
        lemma_last_segment_from(bs, start as int);
    }
    let ghost seg = spec_last_segment(bs);
    if start == bytes.len() {
        proof {
            assert(seg =~= Seq::<u8>::empty());
        }
        return None;
    }
    let mut acc: u64 = 0;
    let mut k: usize = start;
    while k < bytes.len()
        invariant
            bytes@ == bs,
            bs == s.spec_bytes(),
            seg == spec_last_segment(bs),
            seg == bs.subrange(start as int, bs.len() as int),
            start <= k <= bs.len(),
            forall|t: int| start <= t < k ==> 48 <= #[trigger] bs[t] <= 57,
            acc == spec_digits_val(seg.take(k - start)),
        decreases bs.len() - k,
    {
        let b = bytes[k];
        if b < 48 || b > 57 {
            proof {
                assert(seg[k - start] == b);
                assert(!(48 <= seg[k - start] <= 57));
                assert(!spec_all_digits(seg));
            }
            return None;
        }
        let d: u64 = (b - 48) as u64;
        proof {
            assert(seg.take(k - start + 1) =~= seg.take(k - start).push(seg[k - start]));
            assert(seg.take(k - start + 1).drop_last() =~= seg.take(k - start));
        }
        if acc > (u64::MAX - d) / 10 {
            proof {
                assert(spec_digits_val(seg.take(k - start + 1)) == acc * 10 + d);
                assert(acc * 10 + d > u64::MAX as int) by (nonlinear_arith)
                    requires
                        acc > (u64::MAX - d) / 10,
                        0 <= d <= 9,
                        acc <= u64::MAX,
                ;
                if spec_all_digits(seg) {
                    lemma_digits_prefix_le(seg, k - start + 1);
                    assert(spec_digits_val(seg) > u64::MAX as int);
                }
                assert(!(spec_all_digits(seg) && spec_digits_val(seg) <= u64::MAX as int));
            }
            return None;
        }
        acc = acc * 10 + d;
        k = k + 1;
    }
    proof {
        assert(seg.take(k - start) =~= seg);
        assert(spec_all_digits(seg));
    }
    Some(acc)
}

/// What chrono computes for an RFC 3339 timestamp: its unix seconds, or
/// nothing where the text does not parse. A function of the text alone.
pub uninterp spec fn rfc3339_seconds(s: Seq<char>) -> Option<i64>;

/// Relies on chrono's `DateTime::parse_from_rfc3339` followed by
/// `timestamp`: the parse is deterministic in the text, and `timestamp`
/// returns the instant as unix seconds.
#[verifier::external_body]
fn parse_rfc3339(s: &str) -> (r: Option<i64>)
    ensures
        r == rfc3339_seconds(s@),
{
    chrono::DateTime::parse_from_rfc3339(s).ok().map(|dt| dt.timestamp())
}

/// Whether a lowercased status marks a finished run.
pub fn status_is_terminal(st: &str) -> (r: bool)
    ensures
        r == spec_status_terminal(st@),
{
    let s = st.to_owned();
    let mut lit = String::new();
    lit.append("success");
    proof {
        assert(lit@ =~= "success"@);
    }
    if s == lit {
        return true;
    }
    let mut lit2 = String::new();
    lit2.append("failed");
    proof {
        assert(lit2@ =~= "failed"@);
    }
    if s == lit2 {
        return true;
    }
    let mut lit3 = String::new();
    lit3.append("canceled");
    proof {
        assert(lit3@ =~= "canceled"@);
    }
    if s == lit3 {
        return true;
    }
    let mut lit4 = String::new();
    lit4.append("skipped");
    proof {
        assert(lit4@ =~= "skipped"@);
    }
    if s == lit4 {
        return true;
    }
    false
}

/// The duration policy for a fact row: an explicitly reported duration is
/// used when positive and representable; otherwise the span from creation
/// to finish when that is positive and representable; otherwise absent.
pub open spec fn spec_duration_of(dur: Option<u64>, created: int, finished: Option<i64>) -> Option<
    i64,
> {
    if dur is Some && 0 < dur->Some_0 <= i64::MAX as u64 {
        Some(dur->Some_0 as i64)
    } else if finished is Some && 0 < finished->Some_0 - created <= i64::MAX as int {
        Some((finished->Some_0 - created) as i64)
    } else {
        None
    }
}

/// Compute the stored duration from a reported duration, a creation time
/// and a finish time.
pub fn duration_of(dur: Option<u64>, created: i64, finished: Option<i64>) -> (r: Option<i64>)
    ensures
        r == spec_duration_of(dur, created as int, finished),
{
    match dur {
        Some(d) => {
            if 0 < d && d <= i64::MAX as u64 {
                return Some(d as i64);
            }
        },
        None => {},
    }
    match finished {
        Some(f) => {
            let span: i128 = f as i128 - created as i128;
            if 0 < span && span <= i64::MAX as i128 {
                Some(span as i64)
            } else {
                None
            }
        },
        None => None,
    }
}

impl PipelineInfo {
    /// Normalize a GraphQL pipeline into a fact row: timestamps parsed from
    /// RFC 3339 (an unparsable creation time falls back to zero), the
    /// status lowercased, the finish time kept only for a terminal status,
    /// and the duration policy applied.
    pub fn to_db_pipeline(&self, project_id: i64, project_name: &str, project_full_path: &str) -> (r:
        Pipeline)
        requires
            self.id <= i64::MAX as u64,
        ensures
            r.id == self.id as i64,
            r.project_id == project_id,
            r.project_name@ == project_name@,
            r.project_full_path@ == project_full_path@,
            r.ref_name == self.ref_name,
            r.sha == self.sha,
            r.user_name == self.user.name,
            r.status@ == self.status@.map_values(|c: char| spec_lower_char(c)),
            r.created_at == (match rfc3339_seconds(self.created_at@) {
                Some(t) => t,
                None => 0,
            }),
            r.finished_at == (if spec_status_terminal(
                self.status@.map_values(|c: char| spec_lower_char(c)),
            ) {
                match self.finished_at {
                    Some(s) => rfc3339_seconds(s@),
                    None => None,
                }
            } else {
                None
            }),
            r.finished_at is Some ==> spec_status_terminal(r.status@),
            r.duration == spec_duration_of(self.duration, r.created_at as int, r.finished_at),
            r.web_url == self.web_url,
    {
        let created_ts: i64 = match parse_rfc3339(self.created_at.as_str()) {
            Some(t) => t,
            None => 0,
        };
        let status = to_lowercase_ascii(self.status.as_str());
        let finished_ts: Option<i64> = if status_is_terminal(status.as_str()) {
            match &self.finished_at {
                Some(s) => parse_rfc3339(s.as_str()),
                None => None,
            }
        } else {
            None
        };
        let duration = duration_of(self.duration, created_ts, finished_ts);
        Pipeline {
            id: self.id as i64,
            project_id,
            project_name: project_name.to_owned(),
            project_full_path: project_full_path.to_owned(),
            ref_name: self.ref_name.clone(),
            sha: self.sha.clone(),
            user_name: self.user.name.clone(),
            status,
            created_at: created_ts,
            finished_at: finished_ts,
            duration,
            web_url: match &self.web_url {
                Some(u) => Some(u.clone()),
                None => None,
            },
        }
    }
}

impl GitlabPipeline {
    /// Normalize a REST pipeline into a fact row; the listing carries no
    /// user, so the user name starts empty. The listing's update time stands
    /// in for the finish time, so it is kept only when the status is
    /// terminal: a run still in progress has no finish time.
    pub fn to_db_pipeline(&self, project_id: i64, project_name: &str, project_full_path: &str) -> (r:
        Pipeline)
        requires
            self.id <= i64::MAX as u64,
        ensures
            r.id == self.id as i64,
            r.project_id == project_id,
            r.project_name@ == project_name@,
            r.project_full_path@ == project_full_path@,
            r.ref_name == self.ref_name,
            r.sha == self.sha,
            r.user_name@.len() == 0,
            r.status@ == self.status@.map_values(|c: char| spec_lower_char(c)),
            r.created_at == self.created_at,
            r.finished_at == (if spec_status_terminal(
                self.status@.map_values(|c: char| spec_lower_char(c)),
            ) {
                self.finished_at
            } else {
                None
            }),
            r.finished_at is Some ==> spec_status_terminal(r.status@),
            r.duration == spec_duration_of(self.duration, self.created_at as int, r.finished_at),
            r.web_url == self.web_url,
    {
        let status = to_lowercase_ascii(self.status.as_str());
        let finished: Option<i64> = if status_is_terminal(status.as_str()) {
            self.finished_at
        } else {
            None
        };
        let duration = duration_of(self.duration, self.created_at, finished);
        Pipeline {
            id: self.id as i64,
            project_id,
            project_name: project_name.to_owned(),
            project_full_path: project_full_path.to_owned(),
            ref_name: self.ref_name.clone(),
            sha: self.sha.clone(),
            user_name: String::new(),
            status,
            created_at: self.created_at,
            finished_at: finished,
            duration,
            web_url: match &self.web_url {
                Some(u) => Some(u.clone()),
                None => None,
            },
        }
    }
}

/// The web address synthesized for a pipeline under its project's address.
pub open spec fn spec_pipeline_url(base: Seq<char>, id: int) -> Seq<char> {
    base + "/-/pipelines/"@ + spec_decimal_str(id)
}

/// Build the per-pipeline web address from the project address and the
/// pipeline's numeric id.
pub fn pipeline_web_url(base: &str, id: u64) -> (r: String)
    ensures
        r@ == spec_pipeline_url(base@, id as int),
{
    let mut out = base.to_owned();
    out.append("/-/pipelines/");
    let digits = u64_to_string(id);
    out.append(digits.as_str());
    out
}


/// Whether a project node carries at least one pipeline in the query
/// window; only such projects are emitted.
pub open spec fn spec_node_active(n: ProjectNode) -> bool {
    &&& n.pipelines is Some
    &&& n.pipelines->Some_0.nodes is Some
    &&& n.pipelines->Some_0.nodes->Some_0@.len() > 0
}

/// The address base used for a node's synthesized pipeline links.
pub open spec fn spec_node_base(n: ProjectNode) -> Seq<char> {
    if n.web_url is Some {
        n.web_url->Some_0@
    } else {
        Seq::<char>::empty()
    }
}

/// Whether `q` is `p` with its web address replaced by the link synthesized
/// from `base`.
pub open spec fn spec_linked_pipeline(q: PipelineInfo, p: PipelineInfo, base: Seq<char>) -> bool {
    &&& q.id == p.id
    &&& q.sha == p.sha
    &&& q.status == p.status
    &&& q.created_at == p.created_at
    &&& q.finished_at == p.finished_at
    &&& q.duration == p.duration
    &&& q.ref_name == p.ref_name
    &&& q.user == p.user
    &&& q.web_url is Some
    &&& q.web_url->Some_0@ == spec_pipeline_url(base, p.id as int)
}

/// Turn one GraphQL project node into an emitted project: nothing for a
/// node without pipelines in the window, otherwise the project with every
/// pipeline's web address synthesized from the project's address.
pub fn project_of_node(node: ProjectNode) -> (r: Option<ProjectPipelineInfo>)
    ensures
        (r is Some <==> spec_node_active(node)),
        r is Some ==> {
            let pr = r->Some_0;
            let pipes = node.pipelines->Some_0.nodes->Some_0;
            &&& pr.id == node.id
            &&& pr.name == node.name
            &&& pr.full_path == node.full_path
            &&& pr.web_url == node.web_url
            &&& pr.pipelines@.len() == pipes@.len()
            &&& forall|i: int|
                0 <= i < pipes@.len() ==> spec_linked_pipeline(
                    #[trigger] pr.pipelines@[i],
                    pipes@[i],
                    spec_node_base(node),
                )
        },
{
    let ProjectNode { id, name, full_path, web_url, pipelines } = node;
    let conn = match pipelines {
        Some(c) => c,
        None => {
            return None;
        },
    };
    let pipes = match conn.nodes {
        Some(v) => v,
        None => {
            return None;
        },
    };
    if pipes.len() == 0 {
        return None;
    }
    let base = match &web_url {
        Some(u) => u.clone(),
        None => String::new(),
    };
    let ghost base_v = spec_node_base(node);
    proof {
        assert(base@ == base_v);
    }
    let mut linked: Vec<PipelineInfo> = Vec::new();
    let mut i: usize = 0;
    while i < pipes.len()
        invariant
            i <= pipes@.len(),
            base@ == base_v,
            linked@.len() == i,
            forall|t: int|
                0 <= t < i ==> spec_linked_pipeline(#[trigger] linked@[t], pipes@[t], base_v),
        decreases pipes@.len() - i,
    {
        let p = &pipes[i];
        let url = pipeline_web_url(base.as_str(), p.id);
        linked.push(
            PipelineInfo {
                id: p.id,
                sha: p.sha.clone(),
                status: p.status.clone(),
                created_at: p.created_at.clone(),
                finished_at: match &p.finished_at {
                    Some(s) => Some(s.clone()),
                    None => None,
                },
                duration: p.duration,
                ref_name: p.ref_name.clone(),
                web_url: Some(url),
                user: UserInfo { name: p.user.name.clone() },
            },
        );
        i = i + 1;
    }
    Some(ProjectPipelineInfo { id, name, full_path, web_url, pipelines: linked })
}

/// The pagination decision after one page: whether another page follows,
/// and the cursor to resume from.
pub fn next_page(page_info: Option<PageInfo>) -> (r: (bool, Option<String>))
    ensures
        match page_info {
            Some(pi) => r.0 == pi.has_next_page && r.1 == pi.end_cursor,
            None => r.0 == false && r.1 is None,
        },
{
    match page_info {
        Some(pi) => (pi.has_next_page, pi.end_cursor),
        None => (false, None),
    }
}

} // verus!
