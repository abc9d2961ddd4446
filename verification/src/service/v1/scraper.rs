//! The scraper status service: per-hostname scraper health for the admin status page,
//! assembled from the scrape log's latest attempts, rolling counts and recent errors.

use vstd::prelude::*;

use crate::interceptor::auth::{LoggedInCheck, UserPermissions, ADMIN};

verus! {

/// Handler of the scraper status service.
#[derive(Debug, Default, Clone, Copy)]
pub struct ScraperController;

/// The most recent scrape attempt of a hostname (times in milliseconds since the epoch).
#[derive(Debug, Clone)]
pub struct LatestAttempt {
    pub hostname: String,
    pub last_attempt_at: i64,
    pub last_attempt_success: bool,
}

/// A hostname's last success and its attempt and failure counts of the last 24 hours.
#[derive(Debug, Clone)]
pub struct HostnameAggregate {
    pub hostname: String,
    pub last_success_at: Option<i64>,
    pub attempts_24h: i64,
    pub failures_24h: i64,
}

/// A recent failed attempt.
#[derive(Debug, Clone)]
pub struct RecentError {
    pub hostname: String,
    pub operation: String,
    pub url: String,
    pub error_type: Option<String>,
    pub error_message: Option<String>,
    pub created_at: i64,
}

/// A failed attempt as the status page shows it.
#[derive(Debug, Clone)]
pub struct ScraperErrorEntry {
    pub operation: String,
    pub url: String,
    pub error_type: Option<String>,
    pub message: String,
    pub created_at: i64,
}

/// One hostname's line on the status page.
#[derive(Debug, Clone)]
pub struct ScraperStatus {
    pub hostname: String,
    pub last_attempt_at: Option<i64>,
    pub last_attempt_success: bool,
    pub last_success_at: Option<i64>,
    pub attempts_24h: i64,
    pub failures_24h: i64,
    pub recent_errors: Vec<ScraperErrorEntry>,
}

/// Whether text `a` sorts before or with text `b`, character by character.
pub open spec fn text_le(a: Seq<char>, b: Seq<char>) -> bool
    decreases a.len(),
{
    if a.len() == 0 {
        true
    } else if b.len() == 0 {
        false
    } else if (a[0] as u32) < (b[0] as u32) {
        true
    } else if (a[0] as u32) > (b[0] as u32) {
        false
    } else {
        text_le(a.drop_first(), b.drop_first())
    }
}

proof fn lemma_text_le_total(a: Seq<char>, b: Seq<char>)
    ensures
        text_le(a, b) || text_le(b, a),
    decreases a.len(),
{
    if a.len() > 0 && b.len() > 0 && a[0] as u32 == b[0] as u32 {
        lemma_text_le_total(a.drop_first(), b.drop_first());
    }
}

proof fn lemma_text_le_transitive(a: Seq<char>, b: Seq<char>, c: Seq<char>)
    requires
        text_le(a, b),
        text_le(b, c),
    ensures
        text_le(a, c),
    decreases a.len(),
{
    if a.len() > 0 && b.len() > 0 && c.len() > 0 && a[0] as u32 == b[0] as u32 && b[0] as u32 == c[0] as u32 {
        lemma_text_le_transitive(a.drop_first(), b.drop_first(), c.drop_first());
    }
}

/// Whether `a` sorts before or with `b`, as `String::cmp` decides.
fn text_le_exec(a: &String, b: &String) -> (r: bool)
    ensures
        r == text_le(a@, b@),
{
    let sa = a.as_str();
    let sb = b.as_str();
    let n = vstd::string::StrSliceExecFns::unicode_len(sa);
    let m = vstd::string::StrSliceExecFns::unicode_len(sb);
    let mut i: usize = 0;
    proof {
        assert(a@.skip(0) =~= a@);
        assert(b@.skip(0) =~= b@);
    }
    while i < n && i < m
        invariant
            sa@ == a@,
            sb@ == b@,
            n == a@.len(),
            m == b@.len(),
            i <= n,
            i <= m,
            forall|k: int| 0 <= k < i ==> a@[k] == b@[k],
            text_le(a@, b@) == text_le(a@.skip(i as int), b@.skip(i as int)),
        decreases n - i,
    {
        let x = vstd::string::StrSliceExecFns::get_char(sa, i);
        let y = vstd::string::StrSliceExecFns::get_char(sb, i);
        proof {
            assert(a@.skip(i as int)[0] == x);
            assert(b@.skip(i as int)[0] == y);
            assert(a@.skip(i as int).drop_first() =~= a@.skip(i as int + 1));
            assert(b@.skip(i as int).drop_first() =~= b@.skip(i as int + 1));
        }
        if (x as u32) < (y as u32) {
            return true;
        }
        if (x as u32) > (y as u32) {
            return false;
        }
        proof {
            assert(x == y);
        }
        i = i + 1;
    }
    i == n
}

/// Whether the statuses are in order of hostname.
pub open spec fn sorted_by_hostname(s: Seq<ScraperStatus>) -> bool {
    forall|i: int, j: int| 0 <= i < j < s.len() ==> text_le(#[trigger] s[i].hostname@, #[trigger] s[j].hostname@)
}

/// Whether some attempt before position `i` has the hostname of attempt `i`.
pub open spec fn seen_before(latest: Seq<LatestAttempt>, i: int) -> bool {
    exists|j: int| 0 <= j < i && #[trigger] latest[j].hostname@ == latest[i].hostname@
}

/// Position of the last aggregate of `hostname`, or -1.
pub open spec fn last_aggregate(aggs: Seq<HostnameAggregate>, hostname: Seq<char>) -> int
    decreases aggs.len(),
{
    if aggs.len() == 0 {
        -1
    } else if aggs.last().hostname@ == hostname {
        aggs.len() - 1
    } else {
        last_aggregate(aggs.drop_last(), hostname)
    }
}

/// The recent errors of `hostname`, in order.
pub open spec fn errors_of(errors: Seq<RecentError>, hostname: Seq<char>) -> Seq<RecentError> {
    errors.filter(|e: RecentError| e.hostname@ == hostname)
}

/// Whether `x` shows error `e`.
pub open spec fn shows_error(e: RecentError, x: ScraperErrorEntry) -> bool {
    &&& x.operation == e.operation
    &&& x.url == e.url
    &&& x.error_type == e.error_type
    &&& x.created_at == e.created_at
    &&& x.message@ == match e.error_message {
        Some(m) => m@,
        None => Seq::empty(),
    }
}

/// Whether `s` is the status line of attempt `i`: the attempt itself, the hostname's
/// aggregate and its recent errors, the last two only for the first attempt of a hostname.
pub open spec fn status_of(
    latest: Seq<LatestAttempt>,
    aggs: Seq<HostnameAggregate>,
    errors: Seq<RecentError>,
    i: int,
    s: ScraperStatus,
) -> bool {
    let a = latest[i];
    let k = last_aggregate(aggs, a.hostname@);
    let fresh = !seen_before(latest, i);
    let errs = if fresh { errors_of(errors, a.hostname@) } else { Seq::empty() };
    &&& s.hostname == a.hostname
    &&& s.last_attempt_at == Some(a.last_attempt_at)
    &&& s.last_attempt_success == a.last_attempt_success
    &&& s.last_success_at == (if fresh && k >= 0 { aggs[k].last_success_at } else { None })
    &&& s.attempts_24h == (if fresh && k >= 0 { aggs[k].attempts_24h } else { 0 })
    &&& s.failures_24h == (if fresh && k >= 0 { aggs[k].failures_24h } else { 0 })
    &&& s.recent_errors@.len() == errs.len()
    &&& forall|j: int| 0 <= j < errs.len() ==> shows_error(errs[j], #[trigger] s.recent_errors@[j])
}

proof fn lemma_last_aggregate(aggs: Seq<HostnameAggregate>, hostname: Seq<char>, i: int)
    requires
        -1 <= i < aggs.len(),
        i >= 0 ==> aggs[i].hostname@ == hostname,
        forall|j: int| i < j < aggs.len() ==> (#[trigger] aggs[j]).hostname@ != hostname,
    ensures
        last_aggregate(aggs, hostname) == i,
    decreases aggs.len(),
{
    if aggs.len() > 0 && aggs.last().hostname@ != hostname {
        let t = aggs.drop_last();
        assert forall|j: int| i < j < t.len() implies (#[trigger] t[j]).hostname@ != hostname by {
            assert(t[j] == aggs[j]);
        }
        if i >= 0 {
            assert(t[i] == aggs[i]);
        }
        lemma_last_aggregate(t, hostname, i);
    }
}

/// A copy of `s`.
fn copy_text(s: &String) -> (r: String)
    ensures
        r == *s,
{
    s.clone()
}

/// A copy of `s`.
fn copy_optional_text(s: &Option<String>) -> (r: Option<String>)
    ensures
        r == *s,
{
    match s {
        Some(t) => Some(t.clone()),
        None => None,
    }
}

/// The status line of attempt `i`.
fn build_status(latest: &Vec<LatestAttempt>, aggs: &Vec<HostnameAggregate>, errors: &Vec<RecentError>, i: usize) -> (r:
    ScraperStatus)
    requires
        i < latest@.len(),
    ensures
        status_of(latest@, aggs@, errors@, i as int, r),
{
    let a = &latest[i];
    let mut fresh = true;
    let mut j: usize = 0;
    while j < i
        invariant
            i < latest@.len(),
            j <= i,
            a == latest@[i as int],
            fresh == !(exists|k: int| 0 <= k < j && #[trigger] latest@[k].hostname@ == latest@[i as int].hostname@),
        decreases i - j,
    {
        if latest[j].hostname == a.hostname {
            fresh = false;
        }
        j = j + 1;
    }
    let mut k: usize = aggs.len();
    let mut found = false;
    while k > 0
        invariant_except_break
            !found,
        invariant
            k <= aggs@.len(),
            a == latest@[i as int],
            forall|m: int| k <= m < aggs@.len() ==> (#[trigger] aggs@[m]).hostname@ != a.hostname@,
        ensures
            found ==> k > 0 && aggs@[k - 1].hostname@ == a.hostname@,
            !found ==> k == 0,
        decreases k,
    {
        if aggs[k - 1].hostname == a.hostname {
            found = true;
            break;
        }
        k = k - 1;
    }
    proof {
        if found {
            lemma_last_aggregate(aggs@, a.hostname@, k as int - 1);
        } else {
            lemma_last_aggregate(aggs@, a.hostname@, -1);
        }
    }
    let (last_success_at, attempts_24h, failures_24h) = if fresh && found {
        (aggs[k - 1].last_success_at, aggs[k - 1].attempts_24h, aggs[k - 1].failures_24h)
    } else {
        (None, 0, 0)
    };
    let mut recent: Vec<ScraperErrorEntry> = Vec::new();
    let ghost p = |e: RecentError| e.hostname@ == a.hostname@;
    if fresh {
        let mut e: usize = 0;
        while e < errors.len()
            invariant
                e <= errors@.len(),
                a == latest@[i as int],
                p == (|e: RecentError| e.hostname@ == a.hostname@),
                recent@.len() == errors@.take(e as int).filter(p).len(),
                forall|q: int| 0 <= q < recent@.len() ==> shows_error(errors@.take(e as int).filter(p)[q], #[trigger] recent@[q]),
            decreases errors@.len() - e,
        {
            let ghost before = errors@.take(e as int).filter(p);
            proof {
                errors@.take(e as int).lemma_filter_push(errors@[e as int], p);
                assert(errors@.take(e as int + 1) =~= errors@.take(e as int).push(errors@[e as int]));
            }
            if errors[e].hostname == a.hostname {
                let x = &errors[e];
                let message = match &x.error_message {
                    Some(m) => m.clone(),
                    None => String::new(),
                };
                recent.push(ScraperErrorEntry {
                    operation: copy_text(&x.operation),
                    url: copy_text(&x.url),
                    error_type: copy_optional_text(&x.error_type),
                    message,
                    created_at: x.created_at,
                });
                proof {
                    assert(errors@.take(e as int + 1).filter(p) == before.push(errors@[e as int]));
                }
            }
            e = e + 1;
        }
        proof {
            assert(errors@.take(errors@.len() as int) =~= errors@);
        }
    }
    ScraperStatus {
        hostname: copy_text(&a.hostname),
        last_attempt_at: Some(a.last_attempt_at),
        last_attempt_success: a.last_attempt_success,
        last_success_at,
        attempts_24h,
        failures_24h,
        recent_errors: recent,
    }
}

impl ScraperController {
    /// The status page: one line per latest attempt, with its hostname's aggregate and
    /// recent errors (only the first attempt of a hostname gets those), in order of
    /// hostname.
    pub fn status_lines(latest: &Vec<LatestAttempt>, aggregates: &Vec<HostnameAggregate>, errors: &Vec<RecentError>) -> (r:
        Vec<ScraperStatus>)
        ensures
            r@.len() == latest@.len(),
            sorted_by_hostname(r@),
            exists|perm: Seq<int>|
                #![trigger perm.len()]
                perm.len() == latest@.len() && (forall|a: int, b: int|
                    0 <= a < b < perm.len() ==> #[trigger] perm[a] != #[trigger] perm[b]) && forall|i: int|
                    0 <= i < perm.len() ==> 0 <= #[trigger] perm[i] < latest@.len() && status_of(
                        latest@,
                        aggregates@,
                        errors@,
                        perm[i],
                        r@[i],
                    ),
    {
        let mut out: Vec<ScraperStatus> = Vec::new();
        let ghost mut perm: Seq<int> = Seq::empty();
        let mut i: usize = 0;
        while i < latest.len()
            invariant
                i <= latest@.len(),
                out@.len() == i,
                perm.len() == i,
                sorted_by_hostname(out@),
                forall|a: int, b: int| 0 <= a < b < perm.len() ==> #[trigger] perm[a] != #[trigger] perm[b],
                forall|q: int| 0 <= q < perm.len() ==> 0 <= #[trigger] perm[q] < i,
                forall|q: int|
                    0 <= q < perm.len() ==> status_of(latest@, aggregates@, errors@, #[trigger] perm[q], out@[q]),
            decreases latest@.len() - i,
        {
            let s = build_status(latest, aggregates, errors, i);
            let mut pos: usize = out.len();
            while pos > 0
                invariant
                    pos <= out@.len(),
                    sorted_by_hostname(out@),
                    forall|m: int| pos <= m < out@.len() ==> !text_le(#[trigger] out@[m].hostname@, s.hostname@),
                ensures
                    pos > 0 ==> text_le(out@[pos - 1].hostname@, s.hostname@),
                decreases pos,
            {
                if text_le_exec(&out[pos - 1].hostname, &s.hostname) {
                    break;
                }
                pos = pos - 1;
            }
            proof {
                // everything before `pos` sorts with or before `s`, everything from it after
                if pos > 0 {
                    assert(text_le(out@[pos - 1].hostname@, s.hostname@));
                }
                assert forall|m: int| 0 <= m < pos implies text_le(#[trigger] out@[m].hostname@, s.hostname@) by {
                    if m < pos - 1 {
                        lemma_text_le_transitive(out@[m].hostname@, out@[pos - 1].hostname@, s.hostname@);
                    }
                }
                assert forall|m: int| pos <= m < out@.len() implies text_le(s.hostname@, #[trigger] out@[m].hostname@) by {
                    lemma_text_le_total(s.hostname@, out@[m].hostname@);
                }
            }
            let ghost before = out@;
            let ghost old_perm = perm;
            out.insert(pos, s);
            proof {
                perm = old_perm.insert(pos as int, i as int);
                assert forall|a: int, b: int| 0 <= a < b < out@.len() implies text_le(
                    #[trigger] out@[a].hostname@,
                    #[trigger] out@[b].hostname@,
                ) by {
                    if a < pos && b < pos {
                        assert(out@[a] == before[a] && out@[b] == before[b]);
                    } else if a < pos && b == pos {
                        assert(out@[a] == before[a]);
                    } else if a < pos && b > pos {
                        assert(out@[a] == before[a] && out@[b] == before[b - 1]);
                        lemma_text_le_transitive(before[a].hostname@, s.hostname@, before[b - 1].hostname@);
                    } else if a == pos {
                        assert(out@[b] == before[b - 1]);
                    } else {
                        assert(out@[a] == before[a - 1] && out@[b] == before[b - 1]);
                    }
                }
                assert forall|a: int, b: int| 0 <= a < b < perm.len() implies #[trigger] perm[a] != #[trigger] perm[b] by {
                    if a < pos && b < pos {
                        assert(perm[a] == old_perm[a] && perm[b] == old_perm[b]);
                    } else if a < pos && b == pos {
                        assert(perm[a] == old_perm[a]);
                    } else if a < pos && b > pos {
                        assert(perm[a] == old_perm[a] && perm[b] == old_perm[b - 1]);
                    } else if a == pos {
                        assert(perm[b] == old_perm[b - 1]);
                    } else {
                        assert(perm[a] == old_perm[a - 1] && perm[b] == old_perm[b - 1]);
                    }
                }
                assert forall|q: int| 0 <= q < perm.len() implies 0 <= #[trigger] perm[q] < i + 1 && status_of(
                    latest@,
                    aggregates@,
                    errors@,
                    perm[q],
                    out@[q],
                ) by {
                    if q < pos {
                        assert(perm[q] == old_perm[q] && out@[q] == before[q]);
                    } else if q > pos {
                        assert(perm[q] == old_perm[q - 1] && out@[q] == before[q - 1]);
                    }
                }
            }
            i = i + 1;
        }
        out
    }
}

impl ScraperController {
    /// The check every request to this service passes first: an administrator must be logged in (the status page is for administrators only).
    pub fn guard() -> (r: LoggedInCheck)
        ensures
            r.perms.bits == ADMIN,
    {
        LoggedInCheck::new(UserPermissions { bits: ADMIN })
    }
}

} // verus!
