//! Protection of workspaces from being uploaded: the directory of the snapshots is locked
//! against writing, and what the lock has held back is counted.

use vstd::prelude::*;

use crate::ckpt;
use crate::ckpt::{CkptState, StateView};
use crate::figures;
use crate::figures::{CkptStat, CkptView};
use crate::json;
use crate::json::{Json, JsonView};
use crate::latest;
use crate::order;
use crate::order::{Ordered, Ranked};
use crate::rate;
use crate::stream;
use crate::strmap;
use crate::strmap::StrMap;
use crate::text;

verus! {

/// How often the directory is scanned.
pub const SCAN_EVERY_MS: u64 = 5_000;

/// How many rows of the archive are kept.
pub const HISTORY_CAP: usize = 500;

/// The longest name of a directory that is opened.
pub const NAME_CAP: usize = 128;

/// What the state file of a workspace says of its failures.
#[derive(Clone, Copy, Debug, PartialEq, Eq, Structural)]
pub struct StateSummary {
    /// Failed uploads.
    pub failure_count: u64,
}

/// What a scan of the directory has found.
#[derive(Clone, Copy, Debug, PartialEq, Eq, Structural)]
pub struct ScanSummary {
    /// Snapshots that wait.
    pub artifact_count: u64,
    /// Their bytes.
    pub artifact_bytes: u64,
    /// Workspaces.
    pub workspace_count: u64,
    /// Failed uploads.
    pub failure_count: u64,
}

impl ScanSummary {
    /// Nothing found.
    pub open spec fn nothing() -> ScanSummary {
        ScanSummary { artifact_count: 0, artifact_bytes: 0, workspace_count: 0, failure_count: 0 }
    }
}

impl Default for ScanSummary {
    fn default() -> (r: Self)
        ensures
            r == ScanSummary::nothing(),
    {
        ScanSummary { artifact_count: 0, artifact_bytes: 0, workspace_count: 0, failure_count: 0 }
    }
}

/// What a state file says of failures; nothing if it is no object.
pub open spec fn summary_of(v: JsonView) -> Option<StateSummary> {
    match v {
        JsonView::Object(_) => Some(
            StateSummary { failure_count: v.member_unsigned("failureCount"@) },
        ),
        _ => None,
    }
}

/// What the text of a state file says of failures; nothing if it is broken or no object.
pub fn parse_state_summary(s: &str) -> (r: Option<StateSummary>)
    ensures
        r == (match json::parsed(s@) {
            Some(v) => summary_of(v),
            None => None,
        }),
{
    match json::read(s) {
        Some(j) => summary_from(&j),
        None => None,
    }
}

/// What a state file says of failures; nothing if it is no object.
pub fn summary_from(j: &Json) -> (r: Option<StateSummary>)
    ensures
        r == summary_of(j@),
{
    match j {
        Json::Object(_) => Some(StateSummary { failure_count: j.get_unsigned("failureCount") }),
        _ => None,
    }
}

/// A scan: for each workspace what its state file says, and the sizes of its snapshots.
pub type Scans = Seq<(Option<StateSummary>, Vec<u64>)>;

/// The sum of sizes.
pub open spec fn sum_sizes(s: Seq<u64>) -> int
    decreases s.len(),
{
    if s.len() == 0 {
        0
    } else {
        sum_sizes(s.drop_last()) + s.last()
    }
}

/// The snapshots of all workspaces.
pub open spec fn all_artifacts(s: Scans) -> int
    decreases s.len(),
{
    if s.len() == 0 {
        0
    } else {
        all_artifacts(s.drop_last()) + s.last().1@.len()
    }
}

/// The bytes of the snapshots of all workspaces.
pub open spec fn all_bytes(s: Scans) -> int
    decreases s.len(),
{
    if s.len() == 0 {
        0
    } else {
        all_bytes(s.drop_last()) + sum_sizes(s.last().1@)
    }
}

/// The failures of all workspaces; a broken state file tells of none.
pub open spec fn all_failures(s: Scans) -> int
    decreases s.len(),
{
    if s.len() == 0 {
        0
    } else {
        all_failures(s.drop_last()) + (match s.last().0 {
            Some(st) => st.failure_count as int,
            None => 0,
        })
    }
}

/// What a scan amounts to.
pub open spec fn summary_of_scans(s: Scans) -> ScanSummary {
    ScanSummary {
        artifact_count: rate::clip(all_artifacts(s)),
        artifact_bytes: rate::clip(all_bytes(s)),
        workspace_count: rate::clip(s.len() as int),
        failure_count: rate::clip(all_failures(s)),
    }
}

proof fn lemma_sums_nonneg(s: Scans)
    ensures
        all_artifacts(s) >= 0,
        all_bytes(s) >= 0,
        all_failures(s) >= 0,
    decreases s.len(),
{
    if s.len() > 0 {
        lemma_sums_nonneg(s.drop_last());
        lemma_sum_nonneg(s.last().1@);
    }
}

proof fn lemma_sum_nonneg(s: Seq<u64>)
    ensures
        sum_sizes(s) >= 0,
    decreases s.len(),
{
    if s.len() > 0 {
        lemma_sum_nonneg(s.drop_last());
    }
}

fn total_size(v: &Vec<u64>) -> (r: u64)
    ensures
        r == rate::clip(sum_sizes(v@)),
{
    let mut sum: u64 = 0;
    assert(v@.take(0) =~= Seq::empty());
    for i in 0..v.len()
        invariant
            sum == rate::clip(sum_sizes(v@.take(i as int))),
    {
        proof {
            assert(v@.take(i + 1).drop_last() =~= v@.take(i as int));
            lemma_sum_nonneg(v@.take(i as int));
        }
        sum = sum.saturating_add(v[i]);
    }
    assert(v@.take(v@.len() as int) =~= v@);
    sum
}

/// What a scan amounts to. A workspace with a broken state file still counts, and so do its
/// snapshots.
pub fn summarize_scans(scans: &[(Option<StateSummary>, Vec<u64>)]) -> (r: ScanSummary)
    ensures
        r == summary_of_scans(scans@),
{
    let mut s = ScanSummary::default();
    assert(scans@.take(0) =~= Seq::empty());
    for i in 0..scans.len()
        invariant
            s == summary_of_scans(scans@.take(i as int)),
    {
        proof {
            assert(scans@.take(i + 1).drop_last() =~= scans@.take(i as int));
            lemma_sums_nonneg(scans@.take(i as int));
            lemma_sum_nonneg(scans@[i as int].1@);
        }
        s.workspace_count = s.workspace_count.saturating_add(1);
        s.artifact_count = s.artifact_count.saturating_add(scans[i].1.len() as u64);
        s.artifact_bytes = s.artifact_bytes.saturating_add(total_size(&scans[i].1));
        match &scans[i].0 {
            Some(st) => {
                s.failure_count = s.failure_count.saturating_add(st.failure_count);
            },
            None => {},
        }
    }
    assert(scans@.take(scans@.len() as int) =~= scans@);
    s
}

/// What is kept between launches.
#[derive(Clone, Copy, Debug, PartialEq, Eq, Structural)]
pub struct GuardFile {
    /// Since when the directory is locked.
    pub locked_since_ms: Option<i64>,
    /// The calls of the day at that time.
    pub calls_baseline: Option<u64>,
    /// Rounds of conversation since.
    pub blocked_rounds: u64,
    /// The calls of the day that were counted last.
    pub calls_seen: u64,
}

impl GuardFile {
    /// No protection.
    pub open spec fn none() -> GuardFile {
        GuardFile {
            locked_since_ms: None,
            calls_baseline: None,
            blocked_rounds: 0,
            calls_seen: 0,
        }
    }

    /// The lock is on record.
    pub open spec fn recorded(self) -> bool {
        self.locked_since_ms is Some && self.calls_baseline is Some
    }
}

impl Default for GuardFile {
    fn default() -> (r: Self)
        ensures
            r == GuardFile::none(),
    {
        GuardFile {
            locked_since_ms: None,
            calls_baseline: None,
            blocked_rounds: 0,
            calls_seen: 0,
        }
    }
}

/// The rounds counted so far and the calls that were seen, after a look at the calls of the
/// day. Where the count has gone back, on a new day, nothing is added.
pub open spec fn accrued(blocked: u64, calls_seen: u64, calls_today: u64) -> (u64, u64) {
    (rate::clip(blocked + stream::grown(calls_seen, calls_today)), calls_today)
}

/// The rounds counted so far and the calls that were seen, after a look at the calls of the
/// day.
pub fn accrue_rounds(blocked: u64, calls_seen: u64, calls_today: u64) -> (r: (u64, u64))
    ensures
        r == accrued(blocked, calls_seen, calls_today),
{
    let more: u64 = calls_today.saturating_sub(calls_seen);
    (blocked.saturating_add(more), calls_today)
}

/// Whether a file of a workspace is a snapshot that waits to be sent, by its name.
pub fn is_artifact(name: &str) -> (r: bool)
    ensures
        r == text::has_suffix(name@, ".enc"@),
{
    text::ends_with(name, ".enc")
}

/// A character that the name of a directory may hold.
pub open spec fn name_char(c: char) -> bool {
    text::ascii_alnum(c) || c == '-' || c == '_'
}

/// A name that is safe to build a path from.
pub open spec fn safe_name(s: Seq<char>) -> bool {
    &&& 0 < s.len() <= NAME_CAP
    &&& forall|i: int| 0 <= i < s.len() ==> name_char(#[trigger] s[i])
}

/// Whether a name is safe to build a path from.
pub fn valid_hash_name(name: &str) -> (r: bool)
    ensures
        r == safe_name(name@),
{
    let cs = text::chars_of(name);
    if cs.len() == 0 || cs.len() > NAME_CAP {
        return false;
    }
    for i in 0..cs.len()
        invariant
            cs@ == name@,
            forall|k: int| 0 <= k < i ==> name_char(#[trigger] cs@[k]),
    {
        if !(text::is_ascii_alnum(cs[i]) || cs[i] == '-' || cs[i] == '_') {
            assert(!name_char(name@[i as int]));
            return false;
        }
    }
    true
}

/// A safe name leads nowhere but into the directory: it holds no separator, no dot and no
/// colon.
pub proof fn law_safe_name_cannot_leave(s: Seq<char>)
    requires
        safe_name(s),
    ensures
        !s.contains('/'),
        !s.contains('\\'),
        !s.contains('.'),
        !s.contains(':'),
        s.len() > 0,
{
    assert forall|i: int| 0 <= i < s.len() implies #[trigger] s[i] != '/' && s[i] != '\\' && s[i]
        != '.' && s[i] != ':' by {
        assert(name_char(s[i]));
    }
}

/// A security identifier: it begins as such, and holds letters, digits and dashes only.
pub open spec fn is_sid(s: Seq<char>) -> bool {
    &&& text::has_prefix(s, "S-1-"@)
    &&& forall|i: int| 0 <= i < s.len() ==> (text::ascii_alnum(#[trigger] s[i]) || s[i] == '-')
}

/// A field of a listing without white space and quotation marks around it.
pub open spec fn field(s: Seq<char>) -> Seq<char> {
    text::unquoted(text::trimmed(s))
}

/// The first security identifier among fields.
pub open spec fn first_sid(fields: Seq<Seq<char>>) -> Option<Seq<char>>
    decreases fields.len(),
{
    if fields.len() == 0 {
        None
    } else if is_sid(field(fields[0])) {
        Some(field(fields[0]))
    } else {
        first_sid(fields.skip(1))
    }
}

fn looks_like_sid(cs: &Vec<char>) -> (r: bool)
    ensures
        r == is_sid(cs@),
{
    let s = text::string_of(cs);
    if !text::starts_with(s.as_str(), "S-1-") {
        return false;
    }
    for i in 0..cs.len()
        invariant
            forall|k: int|
                0 <= k < i ==> (text::ascii_alnum(#[trigger] cs@[k]) || cs@[k] == '-'),
    {
        if !(text::is_ascii_alnum(cs[i]) || cs[i] == '-') {
            assert(!(text::ascii_alnum(cs@[i as int]) || cs@[i as int] == '-'));
            return false;
        }
    }
    true
}

/// The first security identifier in a listing of the user, whose lines hold fields with
/// commas between.
pub fn parse_whoami_sid(csv: &str) -> (r: Option<String>)
    ensures
        match r {
            Some(s) => first_sid(text::pieces(csv@, seq!['\n', ','])) == Some(s@),
            None => first_sid(text::pieces(csv@, seq!['\n', ','])) is None,
        },
{
    let cs = text::chars_of(csv);
    let mut seps: Vec<char> = Vec::new();
    seps.push('\n');
    seps.push(',');
    assert(seps@ =~= seq!['\n', ',']);
    let ps = text::split(&cs, &seps);
    let ghost pv = text::piece_views(ps@);
    assert(pv.skip(0) =~= pv);
    for i in 0..ps.len()
        invariant
            pv == text::piece_views(ps@),
            pv == text::pieces(csv@, seq!['\n', ',']),
            first_sid(pv) == first_sid(pv.skip(i as int)),
    {
        assert(pv.skip(i as int).skip(1) =~= pv.skip(i + 1));
        assert(pv.skip(i as int)[0] == ps@[i as int]@);
        let t = text::trim(&ps[i]);
        let f = text::unquote(&t);
        if looks_like_sid(&f) {
            return Some(text::string_of(&f));
        }
    }
    None
}

/// A row that ranks by its time.
struct Dated {
    row: CkptStat,
}

/// A [`Dated`] with texts as their characters.
pub struct DatedView {
    pub row: CkptView,
}

impl Ordered for Dated {
    closed spec fn before(self, other: Self) -> bool {
        self.row.recorded_ms > other.row.recorded_ms
    }

    proof fn strict_weak(a: Self, b: Self, c: Self) {
    }
}

impl Ranked for Dated {
    fn is_before(&self, other: &Self) -> (r: bool) {
        self.row.recorded_ms > other.row.recorded_ms
    }
}

impl Ordered for DatedView {
    open spec fn before(self, other: Self) -> bool {
        self.row.recorded_ms > other.row.recorded_ms
    }

    proof fn strict_weak(a: Self, b: Self, c: Self) {
    }
}

/// Rows by their time, the newest first.
pub open spec fn newest_first(rows: Seq<CkptView>) -> Seq<CkptView> {
    order::ranked(rows.map_values(|r: CkptView| DatedView { row: r })).map_values(
        |d: DatedView| d.row,
    )
}

/// The name of the workspace of a row.
pub open spec fn workspace_key() -> spec_fn(CkptView) -> Seq<char> {
    |r: CkptView| r.workspace
}

/// The first rows, as many as are kept.
pub open spec fn capped(rows: Seq<CkptView>) -> Seq<CkptView> {
    if rows.len() <= HISTORY_CAP {
        rows
    } else {
        rows.take(HISTORY_CAP as int)
    }
}

/// The archive after new rows: the latest row of each workspace, the newest first.
pub open spec fn merged(before: Seq<CkptView>, new: Seq<CkptView>) -> Seq<CkptView> {
    capped(newest_first(latest::latest_by(before + new, workspace_key())))
}

spec fn dated_view(d: Dated) -> CkptView {
    d.row@
}

/// Where the row of a workspace stands; behind all rows if there is none.
fn row_place(rows: &Vec<Dated>, name: &str) -> (r: usize)
    ensures
        r <= rows@.len(),
        r < rows@.len() ==> rows@[r as int].row.workspace@ == name@,
        forall|k: int| 0 <= k < r ==> (#[trigger] rows@[k]).row.workspace@ != name@,
{
    for i in 0..rows.len()
        invariant
            forall|k: int| 0 <= k < i ==> (#[trigger] rows@[k]).row.workspace@ != name@,
    {
        if text::same(rows[i].row.workspace.as_str(), name) {
            return i;
        }
    }
    rows.len()
}

fn put_row(rows: &mut Vec<Dated>, row: CkptStat)
    ensures
        final(rows)@.map_values(|d: Dated| dated_view(d)) == latest::put_by(
            old(rows)@.map_values(|d: Dated| dated_view(d)),
            row@,
            workspace_key(),
        ),
{
    let ghost rv = rows@.map_values(|d: Dated| dated_view(d));
    let ghost x = row@;
    let i: usize = row_place(rows, row.workspace.as_str());
    proof {
        assert forall|k: int| 0 <= k < i implies workspace_key()(#[trigger] rv[k])
            != workspace_key()(x) by {
            assert(rows@[k].row.workspace@ != x.workspace);
        }
    }
    if i < rows.len() {
        proof {
            latest::lemma_put_at(rv, x, workspace_key(), i as int);
        }
        rows.set(i, Dated { row });
        assert(rows@.map_values(|d: Dated| dated_view(d)) =~= rv.update(i as int, x));
    } else {
        proof {
            latest::lemma_put_new(rv, x, workspace_key());
        }
        rows.push(Dated { row });
        assert(rows@.map_values(|d: Dated| dated_view(d)) =~= rv.push(x));
    }
}

fn put_rows(rows: &mut Vec<Dated>, new: &Vec<CkptStat>, Ghost(done): Ghost<Seq<CkptView>>)
    requires
        old(rows)@.map_values(|d: Dated| dated_view(d)) == latest::latest_by(
            done,
            workspace_key(),
        ),
    ensures
        final(rows)@.map_values(|d: Dated| dated_view(d)) == latest::latest_by(
            done + figures::ckpts_view(new@),
            workspace_key(),
        ),
{
    let ghost nv = figures::ckpts_view(new@);
    assert(done + nv.take(0) =~= done);
    for i in 0..new.len()
        invariant
            nv == figures::ckpts_view(new@),
            rows@.map_values(|d: Dated| dated_view(d)) == latest::latest_by(
                done + nv.take(i as int),
                workspace_key(),
            ),
    {
        proof {
            let a = done + nv.take(i + 1);
            assert(a.drop_last() =~= done + nv.take(i as int));
            assert(a.last() == nv[i as int]);
        }
        put_row(rows, new[i].clone());
    }
    assert(nv.take(nv.len() as int) =~= nv);
}

/// The archive after new rows: the latest row of each workspace, the newest first.
pub fn merge_history(before: Vec<CkptStat>, new: Vec<CkptStat>) -> (r: Vec<CkptStat>)
    ensures
        figures::ckpts_view(r@) == merged(
            figures::ckpts_view(before@),
            figures::ckpts_view(new@),
        ),
{
    let ghost bv = figures::ckpts_view(before@);
    let ghost nv = figures::ckpts_view(new@);
    let mut rows: Vec<Dated> = Vec::new();
    assert(rows@.map_values(|d: Dated| dated_view(d)) =~= Seq::empty());
    put_rows(&mut rows, &before, Ghost(Seq::empty()));
    assert(Seq::empty() + bv =~= bv);
    put_rows(&mut rows, &new, Ghost(bv));
    let ghost table = latest::latest_by(bv + nv, workspace_key());
    proof {
        let f = |d: Dated| DatedView { row: dated_view(d) };
        order::lemma_ranked_map(rows@, f);
        assert(rows@.map_values(f) =~= table.map_values(|r: CkptView| DatedView { row: r }));
    }
    let sorted = order::sort(rows);
    let ghost all = newest_first(table);
    assert(sorted@.map_values(|d: Dated| dated_view(d)) =~= all);
    let n: usize = if sorted.len() <= HISTORY_CAP {
        sorted.len()
    } else {
        HISTORY_CAP
    };
    let mut out: Vec<CkptStat> = Vec::new();
    for i in 0..n
        invariant
            n <= sorted@.len(),
            all == sorted@.map_values(|d: Dated| dated_view(d)),
            figures::ckpts_view(out@) == all.take(i as int),
    {
        let ghost o = figures::ckpts_view(out@);
        let row = sorted[i].row.clone();
        let ghost rv = row@;
        out.push(row);
        assert(figures::ckpts_view(out@) =~= o.push(rv));
        assert(all.take(i + 1) =~= all.take(i as int).push(all[i as int]));
    }
    assert(figures::ckpts_view(out@) =~= capped(all));
    out
}

/// A row of the archive is the latest of its workspace: a new one where there is one, else
/// the one that stood there. No workspace stands twice, and the newest stand first. All stand
/// there up to as many as are kept, and what is left out is not newer than what is kept.
pub proof fn law_archive_holds_the_latest_rows(before: Seq<CkptView>, new: Seq<CkptView>)
    ensures
        ({
            let r = merged(before, new);
            let all = latest::latest_by(before + new, workspace_key());
            &&& r.len() == (if all.len() <= HISTORY_CAP {
                all.len()
            } else {
                HISTORY_CAP as nat
            })
            &&& forall|x: CkptView, i: int|
                #![trigger all.contains(x), r[i]]
                all.contains(x) && !r.contains(x) && 0 <= i < r.len() ==> x.recorded_ms
                    <= r[i].recorded_ms
            &&& forall|i: int, j: int|
                0 <= i < j < r.len() ==> (#[trigger] r[i]).workspace != (#[trigger] r[j]).workspace
            &&& forall|i: int, j: int|
                0 <= i < j < r.len() ==> (#[trigger] r[i]).recorded_ms >= (#[trigger] r[j]).recorded_ms
            &&& forall|i: int|
                0 <= i < r.len() ==> Some(#[trigger] r[i]) == (match latest::last_with(
                    new,
                    r[i].workspace,
                    workspace_key(),
                ) {
                    Some(x) => Some(x),
                    None => latest::last_with(before, r[i].workspace, workspace_key()),
                })
        }),
{
    let key = workspace_key();
    let all = before + new;
    let table = latest::latest_by(all, key);
    let dated = table.map_values(|r: CkptView| DatedView { row: r });
    let r = merged(before, new);
    latest::law_latest_is_one_per_key(all, key);
    order::law_ranked_is_sorted_permutation(dated);
    assert forall|i: int| 0 <= i < r.len() implies Some(#[trigger] r[i]) == (
    match latest::last_with(new, r[i].workspace, key) {
        Some(x) => Some(x),
        None => latest::last_with(before, r[i].workspace, key),
    }) by {
        order::lemma_ranked_members(dated, i);
        let k = choose|k: int| 0 <= k < dated.len() && dated[k] == order::ranked(dated)[i];
        assert(table[k] == r[i]);
        assert(latest::last_with(all, key(table[k]), key) == Some(table[k]));
        lemma_last_with_sum(before, new, r[i].workspace);
    }
    let d = order::ranked(dated);
    assert forall|x: CkptView, i: int|
        #![trigger table.contains(x), r[i]]
        table.contains(x) && !r.contains(x) && 0 <= i < r.len() implies x.recorded_ms
        <= r[i].recorded_ms by {
        broadcast use vstd::seq_lib::group_to_multiset_ensures;

        let k = choose|k: int| 0 <= k < table.len() && table[k] == x;
        assert(dated[k].row == x);
        assert(dated.contains(dated[k]));
        assert(dated.to_multiset().count(dated[k]) > 0);
        assert(d.contains(dated[k]));
        let m = choose|m: int| 0 <= m < d.len() && d[m] == dated[k];
        let all = newest_first(table);
        assert(all[m] == x);
        if m < r.len() {
            assert(r[m] == x);
        }
        assert(!d[m].before(d[i]));
        assert(r[i] == d[i].row);
    }
    assert(dated.no_duplicates()) by {
        assert forall|i: int, j: int| 0 <= i < dated.len() && 0 <= j < dated.len() && i != j implies
            dated[i] != dated[j] by {
            if i < j {
                assert(key(table[i]) != key(table[j]));
            } else {
                assert(key(table[j]) != key(table[i]));
            }
        }
    }
    dated.lemma_multiset_has_no_duplicates();
    d.lemma_multiset_has_no_duplicates_conv();
    assert forall|i: int, j: int| 0 <= i < j < r.len() implies (#[trigger] r[i]).workspace != (
    #[trigger] r[j]).workspace by {
        assert(d[i] != d[j]);
        assert(r[i] != r[j]);
    }
    assert forall|i: int, j: int| 0 <= i < j < r.len() implies (#[trigger] r[i]).recorded_ms >= (
    #[trigger] r[j]).recorded_ms by {
        assert(!d[j].before(d[i]));
    }
}

proof fn lemma_last_with_sum(a: Seq<CkptView>, b: Seq<CkptView>, k: Seq<char>)
    ensures
        latest::last_with(a + b, k, workspace_key()) == (match latest::last_with(
            b,
            k,
            workspace_key(),
        ) {
            Some(x) => Some(x),
            None => latest::last_with(a, k, workspace_key()),
        }),
    decreases b.len(),
{
    if b.len() == 0 {
        assert(a + b =~= a);
    } else {
        assert((a + b).drop_last() =~= a + b.drop_last());
        lemma_last_with_sum(a, b.drop_last(), k);
    }
}

/// The state of the protection that the panel shows.
#[derive(Debug, PartialEq, Eq)]
pub struct SnapshotGuardStatus {
    /// Directories can be locked on this system.
    pub supported: bool,
    /// The directory is locked.
    pub locked: bool,
    /// Since when.
    pub locked_since_ms: Option<i64>,
    /// Rounds of conversation since.
    pub blocked_rounds: u64,
    /// Snapshots that wait.
    pub artifact_count: u64,
    /// Their bytes.
    pub artifact_bytes: u64,
    /// Workspaces.
    pub workspace_count: u64,
    /// Failed uploads.
    pub failure_count: u64,
    /// What had been uploaded before the directory was cleared.
    pub history: Vec<CkptStat>,
}

/// A [`SnapshotGuardStatus`] with texts as their characters.
#[verifier::ext_equal]
pub struct StatusView {
    pub supported: bool,
    pub locked: bool,
    pub locked_since_ms: Option<i64>,
    pub blocked_rounds: u64,
    pub artifact_count: u64,
    pub artifact_bytes: u64,
    pub workspace_count: u64,
    pub failure_count: u64,
    pub history: Seq<CkptView>,
}

impl View for SnapshotGuardStatus {
    type V = StatusView;

    open spec fn view(&self) -> StatusView {
        StatusView {
            supported: self.supported,
            locked: self.locked,
            locked_since_ms: self.locked_since_ms,
            blocked_rounds: self.blocked_rounds,
            artifact_count: self.artifact_count,
            artifact_bytes: self.artifact_bytes,
            workspace_count: self.workspace_count,
            failure_count: self.failure_count,
            history: figures::ckpts_view(self.history@),
        }
    }
}

/// The protection.
pub struct SnapshotGuard {
    /// Directories can be locked on this system.
    pub supported: bool,
    /// What is kept between launches.
    pub file: GuardFile,
    /// The calls of the day that were counted last.
    pub last_calls: u64,
    /// What the latest scan has found.
    pub scan: ScanSummary,
    /// When that was.
    pub last_scan: Option<u64>,
    /// What had been uploaded before the directory was cleared.
    pub history: Vec<CkptStat>,
}

/// A [`SnapshotGuard`] without its representation.
#[verifier::ext_equal]
pub struct GuardModel {
    pub supported: bool,
    pub file: GuardFile,
    pub last_calls: u64,
    pub scan: ScanSummary,
    pub last_scan: Option<u64>,
    pub history: Seq<CkptView>,
}

impl View for SnapshotGuard {
    type V = GuardModel;

    open spec fn view(&self) -> GuardModel {
        GuardModel {
            supported: self.supported,
            file: self.file,
            last_calls: self.last_calls,
            scan: self.scan,
            last_scan: self.last_scan,
            history: figures::ckpts_view(self.history@),
        }
    }
}

/// The protection as it is found at the start. Counting goes on from where it was left.
pub open spec fn restarted(supported: bool, file: GuardFile, history: Seq<CkptView>) -> GuardModel {
    GuardModel {
        supported,
        file,
        last_calls: file.calls_seen,
        scan: ScanSummary::nothing(),
        last_scan: None,
        history,
    }
}

/// The state that is shown.
pub open spec fn status_of(g: GuardModel, locked: bool) -> StatusView {
    StatusView {
        supported: g.supported,
        locked,
        locked_since_ms: g.file.locked_since_ms,
        blocked_rounds: g.file.blocked_rounds,
        artifact_count: g.scan.artifact_count,
        artifact_bytes: g.scan.artifact_bytes,
        workspace_count: g.scan.workspace_count,
        failure_count: g.scan.failure_count,
        history: g.history,
    }
}

/// The state that is shown where there is no directory to speak of.
pub open spec fn no_status(supported: bool) -> StatusView {
    StatusView {
        supported,
        locked: false,
        locked_since_ms: None,
        blocked_rounds: 0,
        artifact_count: 0,
        artifact_bytes: 0,
        workspace_count: 0,
        failure_count: 0,
        history: Seq::empty(),
    }
}

/// After a look whether the directory is locked. A lock without a record counts from now on;
/// a record without a lock is dropped.
pub open spec fn observed(g: GuardModel, locked: bool, calls_today: u64, now: i64) -> GuardModel {
    if locked {
        if g.file.recorded() {
            let (blocked, seen) = accrued(g.file.blocked_rounds, g.last_calls, calls_today);
            GuardModel {
                last_calls: seen,
                file: GuardFile { blocked_rounds: blocked, calls_seen: seen, ..g.file },
                ..g
            }
        } else {
            GuardModel {
                last_calls: calls_today,
                file: GuardFile {
                    locked_since_ms: Some(now),
                    calls_baseline: Some(calls_today),
                    calls_seen: calls_today,
                    ..g.file
                },
                ..g
            }
        }
    } else {
        GuardModel {
            last_calls: calls_today,
            file: if g.file.locked_since_ms is Some {
                GuardFile::none()
            } else {
                g.file
            },
            ..g
        }
    }
}

/// A scan is due: there was none, or it is long enough ago.
pub open spec fn scan_is_due(g: GuardModel, mono: u64) -> bool {
    match g.last_scan {
        Some(t) => mono - t > SCAN_EVERY_MS,
        None => true,
    }
}

/// After a scan, if it was due.
pub open spec fn rescanned(g: GuardModel, scans: Option<Scans>, mono: u64) -> GuardModel {
    match scans {
        Some(s) if scan_is_due(g, mono) => GuardModel {
            scan: summary_of_scans(s),
            last_scan: Some(mono),
            ..g
        },
        _ => g,
    }
}

/// What is asked for when protection is switched on.
#[derive(Clone, Copy, Debug, PartialEq, Eq, Structural)]
pub struct ApplyPlan {
    /// The directory of the snapshots is known.
    pub has_dir: bool,
    /// The calls of the day.
    pub calls_today: u64,
    /// The time.
    pub now_ms: i64,
    /// The time of a clock that never goes back.
    pub mono_ms: u64,
    /// Snapshots stay where they are.
    pub keep_files: bool,
}

/// What the protection asks to be done to the directory.
#[derive(Debug)]
pub enum GuardAction {
    /// Try whether it can be written to.
    Probe,
    /// Unlock it, with everything in it.
    Unlock,
    /// Read the state of each workspace.
    ReadStates,
    /// Save the archive, with this time.
    SaveHistory(i64),
    /// Remove it, if it exists.
    Clear,
    /// Create it, if it does not exist.
    Create,
    /// Lock it; with everything in it, if so told.
    Lock(bool),
    /// Try whether it can still be written to.
    Verify,
    /// Scan it.
    Scan,
    /// Save what is kept between launches.
    Save,
    /// Nothing more: this is the state.
    Finish(SnapshotGuardStatus),
    /// Nothing more: it has failed.
    Fail(String),
}

/// A [`GuardAction`] with texts as their characters.
pub enum ActionView {
    Probe,
    Unlock,
    ReadStates,
    SaveHistory(i64),
    Clear,
    Create,
    Lock(bool),
    Verify,
    Scan,
    Save,
    Finish(StatusView),
    Fail(Seq<char>),
}

impl View for GuardAction {
    type V = ActionView;

    open spec fn view(&self) -> ActionView {
        match *self {
            GuardAction::Probe => ActionView::Probe,
            GuardAction::Unlock => ActionView::Unlock,
            GuardAction::ReadStates => ActionView::ReadStates,
            GuardAction::SaveHistory(t) => ActionView::SaveHistory(t),
            GuardAction::Clear => ActionView::Clear,
            GuardAction::Create => ActionView::Create,
            GuardAction::Lock(r) => ActionView::Lock(r),
            GuardAction::Verify => ActionView::Verify,
            GuardAction::Scan => ActionView::Scan,
            GuardAction::Save => ActionView::Save,
            GuardAction::Finish(s) => ActionView::Finish(s@),
            GuardAction::Fail(e) => ActionView::Fail(e@),
        }
    }
}

/// What came of an action. An action that can fail tells why it did.
#[derive(Debug)]
pub enum GuardEvent {
    /// Nothing has been done yet.
    Begin,
    /// It is locked, or not.
    Probed(bool),
    /// It was unlocked.
    Unlocked(Option<String>),
    /// The state of each workspace.
    StatesRead(Vec<(String, CkptState)>),
    /// The archive was saved.
    HistorySaved,
    /// It was removed.
    Cleared(Option<String>),
    /// It was created.
    Created(Option<String>),
    /// It was locked.
    Locked(Option<String>),
    /// It is locked indeed, or not.
    Verified(bool),
    /// What a scan has found.
    Scanned(Vec<(Option<StateSummary>, Vec<u64>)>),
    /// What is kept between launches was saved.
    Saved,
}

/// That directories cannot be locked here.
pub open spec fn unsupported_text() -> Seq<char> {
    "File lock is only supported on macOS / Windows"@
}

/// The rows of an archive for the workspaces that were found.
pub open spec fn archive_rows(obs: Seq<(Seq<char>, StateView)>) -> Seq<CkptView> {
    order::ranked(
        latest::latest_by(obs, |o: (Seq<char>, StateView)| o.0).map_values(
            |o: (Seq<char>, StateView)| ckpt::row_of(o.0, o.1),
        ),
    )
}

/// What is done once the directory is writable.
pub open spec fn opened(keep_files: bool) -> ActionView {
    if keep_files {
        ActionView::Create
    } else {
        ActionView::ReadStates
    }
}

/// Switching protection on, step by step: what is kept and what is done next, after what has
/// come of the step before. Snapshots that are not to stay are archived before the directory
/// is cleared, and the lock goes on record once it has been seen to hold.
pub open spec fn apply_step(g: GuardModel, plan: ApplyPlan, ev: GuardEvent) -> (
    GuardModel,
    ActionView,
) {
    match ev {
        GuardEvent::Begin => if !g.supported {
            (g, ActionView::Fail(unsupported_text()))
        } else if !plan.has_dir {
            (g, ActionView::Fail("Cannot locate user directory"@))
        } else {
            (g, ActionView::Probe)
        },
        GuardEvent::Probed(true) => (g, ActionView::Unlock),
        GuardEvent::Probed(false) => (g, opened(plan.keep_files)),
        GuardEvent::Unlocked(Some(e)) => (g, ActionView::Fail(e@)),
        GuardEvent::Unlocked(None) => (g, opened(plan.keep_files)),
        GuardEvent::StatesRead(obs) => {
            let rows = archive_rows(ckpt::obs_view(obs@));
            if rows.len() == 0 && g.history.len() == 0 {
                (g, ActionView::Clear)
            } else {
                (
                    GuardModel { history: merged(g.history, rows), ..g },
                    ActionView::SaveHistory(plan.now_ms),
                )
            }
        },
        GuardEvent::HistorySaved => (g, ActionView::Clear),
        GuardEvent::Cleared(Some(e)) => (
            g,
            ActionView::Fail("Failed to clear checkpoints: "@ + e@),
        ),
        GuardEvent::Cleared(None) => (g, ActionView::Create),
        GuardEvent::Created(Some(e)) => (
            g,
            ActionView::Fail("Failed to recreate checkpoints directory: "@ + e@),
        ),
        GuardEvent::Created(None) => (g, ActionView::Lock(plan.keep_files)),
        GuardEvent::Locked(Some(e)) => (g, ActionView::Fail(e@)),
        GuardEvent::Locked(None) => (g, ActionView::Verify),
        GuardEvent::Verified(false) => (
            g,
            ActionView::Fail(
                "Lock did not take effect (write probe still succeeded); please check directory permissions"@,
            ),
        ),
        GuardEvent::Verified(true) => (
            GuardModel {
                file: GuardFile {
                    locked_since_ms: Some(plan.now_ms),
                    calls_baseline: Some(plan.calls_today),
                    blocked_rounds: 0,
                    calls_seen: plan.calls_today,
                },
                last_calls: plan.calls_today,
                scan: ScanSummary::nothing(),
                last_scan: Some(plan.mono_ms),
                ..g
            },
            if plan.keep_files {
                ActionView::Scan
            } else {
                ActionView::Save
            },
        ),
        GuardEvent::Scanned(s) => (
            GuardModel { scan: summary_of_scans(s@), ..g },
            ActionView::Save,
        ),
        GuardEvent::Saved => (g, ActionView::Finish(status_of(g, true))),
    }
}

/// The record of a lock is dropped.
pub open spec fn released(g: GuardModel, calls_today: u64) -> GuardModel {
    GuardModel { file: GuardFile::none(), last_calls: calls_today, ..g }
}

/// Switching protection off, step by step. Files are never touched. What cannot come of a
/// step of it changes nothing, and the lock is looked at again.
pub open spec fn release_step(g: GuardModel, has_dir: bool, calls_today: u64, ev: GuardEvent) -> (
    GuardModel,
    ActionView,
) {
    match ev {
        GuardEvent::Begin => if !g.supported {
            (g, ActionView::Fail(unsupported_text()))
        } else if !has_dir {
            (g, ActionView::Fail("Cannot locate user directory"@))
        } else {
            (g, ActionView::Probe)
        },
        GuardEvent::Probed(true) => (g, ActionView::Unlock),
        GuardEvent::Probed(false) => (released(g, calls_today), ActionView::Save),
        GuardEvent::Unlocked(Some(e)) => (g, ActionView::Fail(e@)),
        GuardEvent::Unlocked(None) => (released(g, calls_today), ActionView::Save),
        GuardEvent::Verified(locked) => (g, ActionView::Finish(status_of(g, locked))),
        _ => (g, ActionView::Verify),
    }
}

fn states_table(obs: &Vec<(String, CkptState)>) -> (r: StrMap<CkptState>)
    ensures
        ckpt::rows_of(r.entries@) == latest::latest_by(
            ckpt::obs_view(obs@),
            |o: (Seq<char>, StateView)| o.0,
        ).map_values(|o: (Seq<char>, StateView)| ckpt::row_of(o.0, o.1)),
{
    let mut table: StrMap<CkptState> = StrMap::new();
    let ghost ov = ckpt::obs_view(obs@);
    let ghost key = |o: (Seq<char>, StateView)| o.0;
    let ghost f = |e: (Seq<char>, CkptState)| (e.0, e.1@);
    assert(strmap::keyed(table.entries@).map_values(f) =~= latest::latest_by(ov.take(0), key));
    for i in 0..obs.len()
        invariant
            table.wf(),
            ov == ckpt::obs_view(obs@),
            key == (|o: (Seq<char>, StateView)| o.0),
            f == (|e: (Seq<char>, CkptState)| (e.0, e.1@)),
            strmap::keyed(table.entries@).map_values(f) == latest::latest_by(
                ov.take(i as int),
                key,
            ),
    {
        let ghost k0 = strmap::keyed(table.entries@);
        let st = obs[i].1.clone();
        let ghost sv = st;
        table.insert(obs[i].0.clone(), st);
        proof {
            assert(ov.take(i + 1).drop_last() =~= ov.take(i as int));
            assert(ov[i as int] == (obs@[i as int].0@, obs@[i as int].1@));
            latest::lemma_put_map(
                k0,
                (obs@[i as int].0@, sv),
                |e: (Seq<char>, CkptState)| e.0,
                f,
                key,
            );
        }
    }
    proof {
        assert(ov.take(ov.len() as int) =~= ov);
        let t = strmap::keyed(table.entries@).map_values(f);
        assert(ckpt::rows_of(table.entries@) =~= t.map_values(
            |o: (Seq<char>, StateView)| ckpt::row_of(o.0, o.1),
        ));
    }
    table
}

fn prefixed(front: &str, back: &String) -> (r: String)
    ensures
        r@ == front@ + back@,
{
    let mut s = front.to_owned();
    text::push_text(&mut s, back.as_str());
    s
}

impl SnapshotGuard {
    /// The protection as it is found at the start.
    pub fn new(supported: bool, file: GuardFile, history: Vec<CkptStat>) -> (r: Self)
        ensures
            r@ == restarted(supported, file, figures::ckpts_view(history@)),
    {
        SnapshotGuard {
            supported,
            file,
            last_calls: file.calls_seen,
            scan: ScanSummary::default(),
            last_scan: None,
            history,
        }
    }

    /// The calls of the day that were counted last.
    pub fn last_calls_seen(&self) -> (r: u64)
        ensures
            r == self@.last_calls,
    {
        self.last_calls
    }

    fn status(&self, locked: bool) -> (r: SnapshotGuardStatus)
        ensures
            r@ == status_of(self@, locked),
    {
        SnapshotGuardStatus {
            supported: self.supported,
            locked,
            locked_since_ms: self.file.locked_since_ms,
            blocked_rounds: self.file.blocked_rounds,
            artifact_count: self.scan.artifact_count,
            artifact_bytes: self.scan.artifact_bytes,
            workspace_count: self.scan.workspace_count,
            failure_count: self.scan.failure_count,
            history: figures::copy_ckpts(&self.history),
        }
    }

    /// Whether it is time to scan the directory.
    pub fn scan_due(&self, mono_ms: u64) -> (r: bool)
        ensures
            r == scan_is_due(self@, mono_ms),
    {
        match self.last_scan {
            Some(t) => mono_ms > t && mono_ms - t > SCAN_EVERY_MS,
            None => true,
        }
    }

    /// One step: the state to show, and whether what is kept between launches has changed
    /// and is to be saved. `probe` tells whether the directory is locked; there is nothing to
    /// tell where it is not known where the directory is.
    pub fn tick(
        &mut self,
        calls_today: u64,
        now_ms: i64,
        mono_ms: u64,
        probe: Option<bool>,
        scans: Option<&[(Option<StateSummary>, Vec<u64>)]>,
    ) -> (r: (SnapshotGuardStatus, bool))
        ensures
            match probe {
                None => final(self)@ == old(self)@ && !r.1 && r.0@ == no_status(
                    old(self).supported,
                ),
                Some(locked) => {
                    &&& final(self)@ == rescanned(
                        observed(old(self)@, locked, calls_today, now_ms),
                        match scans {
                            Some(s) => Some(s@),
                            None => None,
                        },
                        mono_ms,
                    )
                    &&& r.0@ == status_of(final(self)@, locked)
                    &&& r.1 == (final(self).file != old(self).file)
                },
            },
    {
        let locked = match probe {
            Some(l) => l,
            None => {
                let st = SnapshotGuardStatus {
                    supported: self.supported,
                    locked: false,
                    locked_since_ms: None,
                    blocked_rounds: 0,
                    artifact_count: 0,
                    artifact_bytes: 0,
                    workspace_count: 0,
                    failure_count: 0,
                    history: Vec::new(),
                };
                assert(st@ =~= no_status(self.supported));
                return (st, false);
            },
        };
        let mut save = false;
        if locked {
            if self.file.locked_since_ms.is_none() || self.file.calls_baseline.is_none() {
                self.file.locked_since_ms = Some(now_ms);
                self.file.calls_baseline = Some(calls_today);
                self.last_calls = calls_today;
                self.file.calls_seen = calls_today;
                save = true;
            } else {
                let (blocked, seen) = accrue_rounds(
                    self.file.blocked_rounds,
                    self.last_calls,
                    calls_today,
                );
                self.last_calls = seen;
                if blocked != self.file.blocked_rounds || seen != self.file.calls_seen {
                    self.file.blocked_rounds = blocked;
                    self.file.calls_seen = seen;
                    save = true;
                }
            }
        } else {
            self.last_calls = calls_today;
            if self.file.locked_since_ms.is_some() {
                self.file = GuardFile::default();
                save = true;
            }
        }
        assert(self@ =~= observed(old(self)@, locked, calls_today, now_ms));
        if self.scan_due(mono_ms) {
            match scans {
                Some(s) => {
                    self.last_scan = Some(mono_ms);
                    self.scan = summarize_scans(s);
                },
                None => {},
            }
        }
        (self.status(locked), save)
    }

    /// The next step of switching protection on.
    pub fn apply(&mut self, plan: &ApplyPlan, event: GuardEvent) -> (r: GuardAction)
        ensures
            (final(self)@, r@) == apply_step(old(self)@, *plan, event),
    {
        match event {
            GuardEvent::Begin => if !self.supported {
                GuardAction::Fail("File lock is only supported on macOS / Windows".to_owned())
            } else if !plan.has_dir {
                GuardAction::Fail("Cannot locate user directory".to_owned())
            } else {
                GuardAction::Probe
            },
            GuardEvent::Probed(locked) => if locked {
                GuardAction::Unlock
            } else if plan.keep_files {
                GuardAction::Create
            } else {
                GuardAction::ReadStates
            },
            GuardEvent::Unlocked(error) => match error {
                Some(e) => GuardAction::Fail(e),
                None => if plan.keep_files {
                    GuardAction::Create
                } else {
                    GuardAction::ReadStates
                },
            },
            GuardEvent::StatesRead(obs) => {
                let table = states_table(&obs);
                let rows = ckpt::ckpt_rows(&table);
                assert(figures::ckpts_view(rows@) == archive_rows(ckpt::obs_view(obs@)));
                if rows.len() == 0 && self.history.len() == 0 {
                    GuardAction::Clear
                } else {
                    let before = figures::copy_ckpts(&self.history);
                    self.history = merge_history(before, rows);
                    GuardAction::SaveHistory(plan.now_ms)
                }
            },
            GuardEvent::HistorySaved => GuardAction::Clear,
            GuardEvent::Cleared(error) => match error {
                Some(e) => GuardAction::Fail(prefixed("Failed to clear checkpoints: ", &e)),
                None => GuardAction::Create,
            },
            GuardEvent::Created(error) => match error {
                Some(e) => GuardAction::Fail(
                    prefixed("Failed to recreate checkpoints directory: ", &e),
                ),
                None => GuardAction::Lock(plan.keep_files),
            },
            GuardEvent::Locked(error) => match error {
                Some(e) => GuardAction::Fail(e),
                None => GuardAction::Verify,
            },
            GuardEvent::Verified(locked) => if locked {
                self.file = GuardFile {
                    locked_since_ms: Some(plan.now_ms),
                    calls_baseline: Some(plan.calls_today),
                    blocked_rounds: 0,
                    calls_seen: plan.calls_today,
                };
                self.last_calls = plan.calls_today;
                self.scan = ScanSummary::default();
                self.last_scan = Some(plan.mono_ms);
                if plan.keep_files {
                    GuardAction::Scan
                } else {
                    GuardAction::Save
                }
            } else {
                GuardAction::Fail(
                    "Lock did not take effect (write probe still succeeded); please check directory permissions".to_owned(),
                )
            },
            GuardEvent::Scanned(s) => {
                self.scan = summarize_scans(&s);
                GuardAction::Save
            },
            GuardEvent::Saved => GuardAction::Finish(self.status(true)),
        }
    }

    /// The next step of switching protection off.
    pub fn release(&mut self, has_dir: bool, calls_today: u64, event: GuardEvent) -> (r:
        GuardAction)
        ensures
            (final(self)@, r@) == release_step(old(self)@, has_dir, calls_today, event),
    {
        match event {
            GuardEvent::Begin => if !self.supported {
                GuardAction::Fail("File lock is only supported on macOS / Windows".to_owned())
            } else if !has_dir {
                GuardAction::Fail("Cannot locate user directory".to_owned())
            } else {
                GuardAction::Probe
            },
            GuardEvent::Probed(true) => GuardAction::Unlock,
            GuardEvent::Probed(false) | GuardEvent::Unlocked(None) => {
                self.file = GuardFile::default();
                self.last_calls = calls_today;
                GuardAction::Save
            },
            GuardEvent::Unlocked(Some(e)) => GuardAction::Fail(e),
            GuardEvent::Verified(locked) => GuardAction::Finish(self.status(locked)),
            _ => GuardAction::Verify,
        }
    }
}

/// While the lock holds, rounds are counted and never taken back.
pub proof fn law_rounds_only_grow_under_lock(g: GuardModel, calls_today: u64, now: i64)
    ensures
        observed(g, true, calls_today, now).file.blocked_rounds >= g.file.blocked_rounds,
        observed(g, true, calls_today, now).file.recorded(),
{
}

/// A restart loses no count and adds none: what is kept between launches comes out the same,
/// whether the panel was restarted in between or not.
pub proof fn law_restart_does_not_change_the_count(
    g: GuardModel,
    calls: u64,
    now: i64,
    later_calls: u64,
    later: i64,
    locked: bool,
)
    ensures
        ({
            let one = observed(g, true, calls, now);
            let again = restarted(g.supported, one.file, g.history);
            observed(one, locked, later_calls, later).file == observed(
                again,
                locked,
                later_calls,
                later,
            ).file
        }),
{
}

/// The lock goes on record only once it has been seen to hold, and switching protection on
/// changes nothing else that is kept between launches.
pub proof fn law_lock_is_recorded_only_when_it_holds(g: GuardModel, plan: ApplyPlan, ev: GuardEvent)
    ensures
        apply_step(g, plan, ev).0.file != g.file ==> ev == GuardEvent::Verified(true),
        apply_step(g, plan, ev).1 is Finish ==> ev is Saved,
{
}

/// The directory is cleared only where snapshots are not to stay, and only after the state
/// of the workspaces was read and archived.
pub proof fn law_archived_before_cleared(g: GuardModel, plan: ApplyPlan, ev: GuardEvent)
    ensures
        apply_step(g, plan, ev).1 is Clear ==> ev is HistorySaved || (ev is StatesRead
            && archive_rows(ckpt::obs_view(ev->StatesRead_0@)).len() == 0 && g.history.len() == 0),
        apply_step(g, plan, ev).1 is SaveHistory ==> ev is StatesRead && apply_step(
            g,
            plan,
            ev,
        ).0.history == merged(g.history, archive_rows(ckpt::obs_view(ev->StatesRead_0@))),
        plan.keep_files ==> !(apply_step(g, plan, ev).1 is ReadStates),
{
}

/// Switching protection off never clears, creates or locks anything.
pub proof fn law_release_touches_no_files(
    g: GuardModel,
    has_dir: bool,
    calls_today: u64,
    ev: GuardEvent,
)
    ensures
        ({
            let a = release_step(g, has_dir, calls_today, ev).1;
            !(a is Clear || a is Create || a is Lock || a is SaveHistory)
        }),
{
}

/// How directories are locked on a system.
#[derive(Clone, Copy, Debug, PartialEq, Eq, Structural)]
pub enum LockKind {
    /// By a flag of the file system.
    Flag,
    /// By an entry in the list of access rights.
    AccessList,
}

/// An argument of a command of the system.
#[derive(Debug)]
pub enum LockArg {
    /// A word.
    Word(String),
    /// The path of the directory.
    Directory,
}

/// An argument of a command, with words as their characters.
pub enum LockArgView {
    Word(Seq<char>),
    Directory,
}

impl View for LockArg {
    type V = LockArgView;

    open spec fn view(&self) -> LockArgView {
        match *self {
            LockArg::Word(s) => LockArgView::Word(s@),
            LockArg::Directory => LockArgView::Directory,
        }
    }
}

/// Arguments with words as their characters.
pub open spec fn args_view(args: Seq<LockArg>) -> Seq<LockArgView> {
    args.map_values(|a: LockArg| a@)
}

/// The word that sets or takes back the flag.
pub open spec fn flag_word(lock: bool) -> Seq<char> {
    if lock {
        "uchg"@
    } else {
        "nouchg"@
    }
}

/// The arguments that lock or unlock a directory. A flag has to be set on all that is in the
/// directory one by one; an entry in the list of access rights is handed down. The entry
/// denies writing and adding to the user, and nothing else.
pub open spec fn lock_args(
    kind: LockKind,
    lock: bool,
    recursive: bool,
    sid: Seq<char>,
) -> Seq<LockArgView> {
    match kind {
        LockKind::Flag => if recursive {
            seq![
                LockArgView::Word("-R"@),
                LockArgView::Word(flag_word(lock)),
                LockArgView::Directory,
            ]
        } else {
            seq![LockArgView::Word(flag_word(lock)), LockArgView::Directory]
        },
        LockKind::AccessList => if lock {
            seq![
                LockArgView::Directory,
                LockArgView::Word("/deny"@),
                LockArgView::Word("*"@ + sid + ":(OI)(CI)(WD,AD)"@),
            ]
        } else {
            seq![
                LockArgView::Directory,
                LockArgView::Word("/remove:d"@),
                LockArgView::Word("*"@ + sid),
            ]
        },
    }
}

/// The command that locks or unlocks a directory, and its arguments.
pub fn lock_command(kind: LockKind, lock: bool, recursive: bool, sid: &str) -> (r: (
    &'static str,
    Vec<LockArg>,
))
    ensures
        r.0@ == (if kind == LockKind::Flag {
            "chflags"@
        } else {
            "icacls"@
        }),
        args_view(r.1@) == lock_args(kind, lock, recursive, sid@),
{
    let mut args: Vec<LockArg> = Vec::new();
    match kind {
        LockKind::Flag => {
            if recursive {
                args.push(LockArg::Word("-R".to_owned()));
            }
            args.push(
                LockArg::Word(
                    if lock {
                        "uchg".to_owned()
                    } else {
                        "nouchg".to_owned()
                    },
                ),
            );
            args.push(LockArg::Directory);
            assert(args_view(args@) =~= lock_args(kind, lock, recursive, sid@));
            ("chflags", args)
        },
        LockKind::AccessList => {
            let mut who = "*".to_owned();
            text::push_text(&mut who, sid);
            args.push(LockArg::Directory);
            if lock {
                text::push_text(&mut who, ":(OI)(CI)(WD,AD)");
                args.push(LockArg::Word("/deny".to_owned()));
            } else {
                args.push(LockArg::Word("/remove:d".to_owned()));
            }
            args.push(LockArg::Word(who));
            assert(args_view(args@) =~= lock_args(kind, lock, recursive, sid@));
            ("icacls", args)
        },
    }
}

/// The code with which a command ended, if it had one.
pub open spec fn code_text(code: Option<i32>) -> Seq<char> {
    match code {
        Some(c) => "Some("@ + text::padded_signed(c as int, 0) + ")"@,
        None => "None"@,
    }
}

/// That a command to lock or unlock did not succeed.
pub open spec fn lock_failure_text(
    kind: LockKind,
    lock: bool,
    recursive: bool,
    code: Option<i32>,
) -> Seq<char> {
    (match kind {
        LockKind::Flag => "chflags "@ + (if recursive {
            "-R "@
        } else {
            ""@
        }) + flag_word(lock),
        LockKind::AccessList => "icacls "@ + (if lock {
            "/deny"@
        } else {
            "/remove:d"@
        }),
    }) + " did not succeed (exit "@ + code_text(code) + ")"@
}

/// That a command to lock or unlock did not succeed.
pub fn lock_failure(kind: LockKind, lock: bool, recursive: bool, code: Option<i32>) -> (r: String)
    ensures
        r@ == lock_failure_text(kind, lock, recursive, code),
{
    let mut s = String::new();
    match kind {
        LockKind::Flag => {
            text::push_text(&mut s, "chflags ");
            text::push_text(
                &mut s,
                if recursive {
                    "-R "
                } else {
                    ""
                },
            );
            text::push_text(
                &mut s,
                if lock {
                    "uchg"
                } else {
                    "nouchg"
                },
            );
        },
        LockKind::AccessList => {
            text::push_text(&mut s, "icacls ");
            text::push_text(
                &mut s,
                if lock {
                    "/deny"
                } else {
                    "/remove:d"
                },
            );
        },
    }
    text::push_text(&mut s, " did not succeed (exit ");
    match code {
        Some(c) => {
            text::push_text(&mut s, "Some(");
            text::push_padded_signed(&mut s, c, 0);
            text::push_text(&mut s, ")");
        },
        None => {
            text::push_text(&mut s, "None");
        },
    }
    text::push_text(&mut s, ")");
    assert(s@ =~= lock_failure_text(kind, lock, recursive, code));
    s
}

/// Under a lock that is on record, the calls that were added since the last look are counted as
/// rounds, each once; on a new day, when their number has gone back, none is.
pub proof fn law_calls_under_lock_are_rounds(g: GuardModel, calls_today: u64, now: i64)
    requires
        g.file.locked_since_ms is Some,
        g.file.recorded(),
        g.file.blocked_rounds + calls_today <= u64::MAX,
    ensures
        ({
            let a = observed(g, true, calls_today, now);
            &&& calls_today >= g.last_calls ==> a.file.blocked_rounds == g.file.blocked_rounds + (
            calls_today - g.last_calls)
            &&& calls_today < g.last_calls ==> a.file.blocked_rounds == g.file.blocked_rounds
            &&& a.last_calls == calls_today
            &&& a.file.locked_since_ms == g.file.locked_since_ms
            &&& observed(a, true, calls_today, now).file == a.file
        }),
{
}

/// What a scan finds is what its workspaces have together.
pub proof fn law_scan_adds_up(s: Scans)
    ensures
        ({
            let r = summary_of_scans(s);
            let sizes = |v: Seq<u64>| v.fold_left(0int, |a: int, n: u64| a + n);
            &&& r.workspace_count == rate::clip(s.len() as int)
            &&& r.artifact_count == rate::clip(
                s.fold_left(
                    0int,
                    |a: int, e: (Option<StateSummary>, Vec<u64>)| a + e.1@.len(),
                ),
            )
            &&& r.artifact_bytes == rate::clip(
                s.fold_left(
                    0int,
                    |a: int, e: (Option<StateSummary>, Vec<u64>)| a + sizes(e.1@),
                ),
            )
            &&& r.failure_count == rate::clip(
                s.fold_left(
                    0int,
                    |a: int, e: (Option<StateSummary>, Vec<u64>)|
                        a + (if e.0 is Some {
                            e.0->0.failure_count as int
                        } else {
                            0
                        }),
                ),
            )
        }),
{
    lemma_scan_folds(s);
}

proof fn lemma_sizes_fold(s: Seq<u64>)
    ensures
        sum_sizes(s) == s.fold_left(0int, |a: int, n: u64| a + n),
    decreases s.len(),
{
    if s.len() > 0 {
        lemma_sizes_fold(s.drop_last());
    }
}

proof fn lemma_scan_folds(s: Scans)
    ensures
        ({
            let sizes = |v: Seq<u64>| v.fold_left(0int, |a: int, n: u64| a + n);
            &&& all_artifacts(s) == s.fold_left(
                0int,
                |a: int, e: (Option<StateSummary>, Vec<u64>)| a + e.1@.len(),
            )
            &&& all_bytes(s) == s.fold_left(
                0int,
                |a: int, e: (Option<StateSummary>, Vec<u64>)| a + sizes(e.1@),
            )
            &&& all_failures(s) == s.fold_left(
                0int,
                |a: int, e: (Option<StateSummary>, Vec<u64>)|
                    a + (if e.0 is Some {
                        e.0->0.failure_count as int
                    } else {
                        0
                    }),
            )
        }),
    decreases s.len(),
{
    if s.len() > 0 {
        lemma_scan_folds(s.drop_last());
        lemma_sizes_fold(s.last().1@);
    }
}

/// A lock that is first seen is recorded with the time and the calls of the day; one that is gone
/// is forgotten, with its rounds.
pub proof fn law_lock_is_noticed(g: GuardModel, calls_today: u64, now: i64)
    ensures
        g.file.locked_since_ms is None ==> {
            let a = observed(g, true, calls_today, now);
            &&& a.file.locked_since_ms == Some(now)
            &&& a.file.blocked_rounds == g.file.blocked_rounds
            &&& a.file.calls_baseline == Some(calls_today)
            &&& a.last_calls == calls_today
        },
        ({
            let a = observed(g, false, calls_today, now);
            &&& g.file.locked_since_ms is Some ==> a.file.locked_since_ms is None
                && a.file.blocked_rounds == 0 && a.file.calls_baseline is None
            &&& g.file.locked_since_ms is None ==> a.file == g.file
            &&& a.last_calls == calls_today
        }),
{
}

/// A new lock counts from its own time on, with no round yet.
pub proof fn law_new_lock_counts_from_zero(g: GuardModel, plan: ApplyPlan)
    ensures
        ({
            let a = apply_step(g, plan, GuardEvent::Verified(true)).0;
            &&& a.file.locked_since_ms == Some(plan.now_ms)
            &&& a.file.blocked_rounds == 0
            &&& a.last_calls == plan.calls_today
            &&& observed(a, true, plan.calls_today, plan.now_ms).file.blocked_rounds == 0
        }),
{
}

/// The directory is scanned every five seconds, the archive holds five hundred rows, and a name has
/// at most a hundred and twenty-eight characters.
pub proof fn law_limits_of_the_guard(
    g: GuardModel,
    t: u64,
    mono: u64,
    before: Seq<CkptView>,
    new: Seq<CkptView>,
    s: Seq<char>,
)
    ensures
        g.last_scan == Some(t) ==> scan_is_due(g, mono) == (mono - t > 5_000),
        g.last_scan is None ==> scan_is_due(g, mono),
        merged(before, new).len() <= 500,
        latest::latest_by(before + new, workspace_key()).len() <= 500 ==> merged(before, new).len()
            == latest::latest_by(before + new, workspace_key()).len(),
        safe_name(s) ==> 0 < s.len() <= 128,
        0 < s.len() <= 128 && (forall|i: int|
            0 <= i < s.len() ==> ('0' <= #[trigger] s[i] <= '9' || 'a' <= s[i] <= 'z' || 'A' <= s[i]
                <= 'Z' || s[i] == '-' || s[i] == '_')) ==> safe_name(s),
{
    law_archive_holds_the_latest_rows(before, new);
}

/// What is told of the guard is what it has counted and found.
pub proof fn law_guard_tells_what_it_knows(g: GuardModel, locked: bool)
    ensures
        ({
            let s = status_of(g, locked);
            &&& s.locked == locked && s.supported == g.supported
            &&& s.locked_since_ms == g.file.locked_since_ms
            &&& s.blocked_rounds == g.file.blocked_rounds
            &&& s.artifact_count == g.scan.artifact_count && s.artifact_bytes
                == g.scan.artifact_bytes
            &&& s.workspace_count == g.scan.workspace_count && s.failure_count
                == g.scan.failure_count
            &&& s.history == g.history
        }),
{
}

} // verus!
