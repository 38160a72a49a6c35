//! What a refresh does.

use crate::api;
use crate::api::{ContextInfo, ContextView};
use crate::model::InvalidationView;
use crate::state::Invalidation;
use crate::text::{copy_text, same_text};
use vstd::prelude::*;
use vstd::string::*;

verus! {

/// What is to be refreshed.
#[derive(Debug)]
pub enum Job {
    RefreshAll,
    RefreshContext(String),
}

/// What is to be refreshed.
pub ghost enum JobView {
    All,
    Context(Seq<char>),
}

impl View for Job {
    type V = JobView;

    open spec fn view(&self) -> JobView {
        match *self {
            Job::RefreshAll => JobView::All,
            Job::RefreshContext(c) => JobView::Context(c@),
        }
    }
}

/// What each of some jobs is.
pub open spec fn job_views(s: Seq<Job>) -> Seq<JobView> {
    Seq::new(s.len(), |i: int| s[i]@)
}

/// Jobs without those that came before.
pub open spec fn without_repeats(s: Seq<JobView>) -> Seq<JobView>
    decreases s.len(),
{
    if s.len() == 0 {
        Seq::empty()
    } else {
        let r = without_repeats(s.drop_last());
        if r.contains(s.last()) {
            r
        } else {
            r.push(s.last())
        }
    }
}

/// What is left to do of the jobs that are queued: a refresh of everything covers all others, and
/// a burst of changes to a context is one refresh of it.
pub open spec fn due(jobs: Seq<JobView>) -> Seq<JobView> {
    if jobs.contains(JobView::All) {
        seq![JobView::All]
    } else {
        without_repeats(jobs)
    }
}

impl Job {
    fn same(&self, other: &Job) -> (r: bool)
        ensures
            r == (self@ == other@),
    {
        match (self, other) {
            (Job::RefreshAll, Job::RefreshAll) => true,
            (Job::RefreshContext(a), Job::RefreshContext(b)) => same_text(a.as_str(), b.as_str()),
            _ => false,
        }
    }

    fn copy(&self) -> (r: Job)
        ensures
            r@ == self@,
    {
        match self {
            Job::RefreshAll => Job::RefreshAll,
            Job::RefreshContext(c) => Job::RefreshContext(copy_text(c.as_str())),
        }
    }
}

fn holds(jobs: &Vec<Job>, job: &Job) -> (r: bool)
    ensures
        r == job_views(jobs@).contains(job@),
{
    let ghost s = job_views(jobs@);
    let mut i: usize = 0;
    while i < jobs.len()
        invariant
            i <= jobs@.len(),
            s == job_views(jobs@),
            forall|j: int| 0 <= j < i ==> s[j] != job@,
        decreases jobs@.len() - i,
    {
        if jobs[i].same(job) {
            assert(s[i as int] == job@);
            return true;
        }
        i = i + 1;
    }
    false
}

/// Works out what is left to do of the jobs that are queued.
pub fn merge_jobs(jobs: &Vec<Job>) -> (r: Vec<Job>)
    ensures
        job_views(r@) == due(job_views(jobs@)),
{
    let ghost all = job_views(jobs@);
    let mut out: Vec<Job> = Vec::new();
    if holds(jobs, &Job::RefreshAll) {
        out.push(Job::RefreshAll);
        assert(job_views(out@) =~= seq![JobView::All]);
        return out;
    }
    let n = jobs.len();
    let mut i: usize = 0;
    assert(all.take(0) =~= Seq::empty());
    assert(job_views(out@) =~= without_repeats(all.take(0)));
    while i < n
        invariant
            n == jobs@.len(),
            i <= n,
            all == job_views(jobs@),
            job_views(out@) == without_repeats(all.take(i as int)),
        decreases n - i,
    {
        let ghost o = job_views(out@);
        proof {
            assert(all.take(i + 1).drop_last() =~= all.take(i as int));
        }
        if !holds(&out, &jobs[i]) {
            out.push(jobs[i].copy());
            assert(job_views(out@) =~= o.push(all[i as int]));
        }
        i = i + 1;
    }
    assert(all.take(n as int) =~= all);
    out
}

/// The contexts that a filter lets through; without a filter, all.
pub open spec fn filtered(ctxs: Seq<ContextView>, filter: Option<Seq<Seq<char>>>) -> Seq<ContextView>
    decreases ctxs.len(),
{
    if ctxs.len() == 0 {
        Seq::empty()
    } else {
        let s = filtered(ctxs.drop_last(), filter);
        if filter is None || filter->0.contains(ctxs.last().id) {
            s.push(ctxs.last())
        } else {
            s
        }
    }
}

/// The texts of a list that may be absent.
pub open spec fn option_texts(v: Option<Vec<String>>) -> Option<Seq<Seq<char>>> {
    match v {
        Some(v) => Some(api::texts(v@)),
        None => None,
    }
}

fn lets_through(filter: &Option<Vec<String>>, id: &str) -> (r: bool)
    ensures
        r == (option_texts(*filter) is None || option_texts(*filter)->0.contains(id@)),
{
    match filter {
        None => true,
        Some(ids) => {
            let ghost s = api::texts(ids@);
            let mut i: usize = 0;
            while i < ids.len()
                invariant
                    i <= ids@.len(),
                    s == api::texts(ids@),
                    option_texts(*filter) == Some(s),
                    forall|j: int| 0 <= j < i ==> s[j] != id@,
                decreases ids@.len() - i,
            {
                if same_text(ids[i].as_str(), id) {
                    assert(s[i as int] == id@);
                    return true;
                }
                i = i + 1;
            }
            false
        },
    }
}

/// Keeps the contexts that a filter lets through.
pub fn filter_contexts(contexts: Vec<ContextInfo>, filter: &Option<Vec<String>>) -> (r: Vec<
    ContextInfo,
>)
    ensures
        api::context_views(r@) == filtered(api::context_views(contexts@), option_texts(*filter)),
{
    let ghost all = api::context_views(contexts@);
    let ghost f = option_texts(*filter);
    let mut out: Vec<ContextInfo> = Vec::new();
    let mut left = contexts;
    let ghost n = all.len();
    let ghost mut i: int = 0;
    assert(all.take(0) =~= Seq::empty());
    assert(api::context_views(out@) =~= filtered(all.take(0), f));
    while left.len() > 0
        invariant
            0 <= i <= n,
            n == all.len(),
            left@.len() == n - i,
            api::context_views(left@) == all.skip(i),
            f == option_texts(*filter),
            api::context_views(out@) == filtered(all.take(i), f),
        decreases left@.len(),
    {
        let ghost o = api::context_views(out@);
        let ghost l = left@;
        let ctx = left.remove(0);
        proof {
            assert(ctx@ == api::context_views(l)[0]);
            assert(api::context_views(l)[0] == all[i]);
            assert(all.take(i + 1).drop_last() =~= all.take(i));
            assert(all.take(i + 1).last() == all[i]);
            assert(api::context_views(left@) =~= all.skip(i + 1)) by {
                assert forall|j: int| 0 <= j < left@.len() implies #[trigger] api::context_views(
                    left@,
                )[j] == all.skip(i + 1)[j] by {
                    assert(left@[j] == l[j + 1]);
                    assert(api::context_views(l)[j + 1] == all.skip(i)[j + 1]);
                }
            }
        }
        if lets_through(filter, ctx.id.as_str()) {
            let ghost c = ctx@;
            out.push(ctx);
            assert(api::context_views(out@) =~= o.push(c));
        }
        proof {
            i = i + 1;
        }
    }
    assert(all.take(i) =~= all);
    out
}

/// One thing that the kernel is told.
#[derive(Debug, PartialEq, Eq)]
pub enum Notice {
    /// An entry of a directory is gone
    Gone { dir: u64, ino: u64, name: String },
    /// What is cached of an inode must be dropped
    Stale { ino: u64 },
}

/// One thing that the kernel is told.
pub ghost enum NoticeView {
    Gone(u64, u64, Seq<char>),
    Stale(u64),
}

impl View for Notice {
    type V = NoticeView;

    open spec fn view(&self) -> NoticeView {
        match *self {
            Notice::Gone { dir, ino, name } => NoticeView::Gone(dir, ino, name@),
            Notice::Stale { ino } => NoticeView::Stale(ino),
        }
    }
}

/// What each of some notices is.
pub open spec fn notice_views(s: Seq<Notice>) -> Seq<NoticeView> {
    Seq::new(s.len(), |i: int| s[i]@)
}

/// All that the kernel is told after a refresh: first what is gone, then what changed.
pub open spec fn all_notices(inv: InvalidationView) -> Seq<NoticeView> {
    Seq::new(
        inv.removed.len(),
        |i: int| NoticeView::Gone(inv.removed[i].0, inv.removed[i].1, inv.removed[i].2),
    ) + Seq::new((inv.changed + inv.dirty_dirs).len(), |i: int|
        NoticeView::Stale((inv.changed + inv.dirty_dirs)[i]))
}

/// Works out what the kernel is told after a refresh.
pub fn notices(inv: &Invalidation) -> (r: Vec<Notice>)
    ensures
        notice_views(r@) == all_notices(inv@),
{
    let ghost all = all_notices(inv@);
    let mut out: Vec<Notice> = Vec::new();
    let mut i: usize = 0;
    while i < inv.removed.len()
        invariant
            all == all_notices(inv@),
            i <= inv.removed@.len(),
            out@.len() == i,
            forall|j: int| 0 <= j < out@.len() ==> (#[trigger] out@[j])@ == all[j],
        decreases inv.removed@.len() - i,
    {
        let gone = &inv.removed[i];
        assert(inv@.removed[i as int] == (gone.0, gone.1, gone.2@));
        out.push(Notice::Gone { dir: gone.0, ino: gone.1, name: copy_text(gone.2.as_str()) });
        i = i + 1;
    }
    i = 0;
    while i < inv.changed.len()
        invariant
            all == all_notices(inv@),
            i <= inv.changed@.len(),
            out@.len() == inv.removed@.len() + i,
            forall|j: int| 0 <= j < out@.len() ==> (#[trigger] out@[j])@ == all[j],
        decreases inv.changed@.len() - i,
    {
        out.push(Notice::Stale { ino: inv.changed[i] });
        i = i + 1;
    }
    i = 0;
    while i < inv.dirty_dirs.len()
        invariant
            all == all_notices(inv@),
            i <= inv.dirty_dirs@.len(),
            out@.len() == inv.removed@.len() + inv.changed@.len() + i,
            forall|j: int| 0 <= j < out@.len() ==> (#[trigger] out@[j])@ == all[j],
        decreases inv.dirty_dirs@.len() - i,
    {
        out.push(Notice::Stale { ino: inv.dirty_dirs[i] });
        i = i + 1;
    }
    assert(notice_views(out@) =~= all);
    out
}

/// The time between two refreshes of everything, for one that is asked for.
pub open spec fn interval_of(secs: u64) -> u64 {
    if secs < 5 {
        5
    } else {
        secs
    }
}

/// How long to wait between two full refreshes: at least five seconds.
pub fn resync_interval(secs: u64) -> (r: u64)
    ensures
        r == interval_of(secs),
        r == (if secs < 5 {
            5
        } else {
            secs
        }),
{
    if secs < 5 {
        5
    } else {
        secs
    }
}

/// Whatever is queued, each context that was to be refreshed is refreshed, alone or with all, and
/// none twice.
pub proof fn law_every_job_is_done_once(jobs: Seq<JobView>)
    ensures
        due(jobs).no_duplicates(),
        forall|j: JobView| #[trigger]
            jobs.contains(j) ==> due(jobs).contains(j) || due(jobs).contains(JobView::All),
        forall|j: JobView| #[trigger] due(jobs).contains(j) ==> jobs.contains(j),
{
    if jobs.contains(JobView::All) {
        assert(due(jobs)[0] == JobView::All);
        assert(due(jobs).contains(JobView::All));
    } else {
        lemma_without_repeats(jobs);
    }
}

proof fn lemma_without_repeats(s: Seq<JobView>)
    ensures
        without_repeats(s).no_duplicates(),
        forall|j: JobView| #[trigger] without_repeats(s).contains(j) <==> s.contains(j),
    decreases s.len(),
{
    if s.len() > 0 {
        let f = s.drop_last();
        lemma_without_repeats(f);
        let r = without_repeats(f);
        assert(s == f.push(s.last()));
        assert forall|j: JobView| #[trigger] without_repeats(s).contains(j) <==> s.contains(j) by {
            crate::wellformed::lemma_push_contains(f, s.last(), j);
            crate::wellformed::lemma_push_contains(r, s.last(), j);
        }
        if !r.contains(s.last()) {
            let q = r.push(s.last());
            assert forall|a: int, b: int|
                0 <= a < q.len() && 0 <= b < q.len() && a != b implies q[a] != q[b] by {
                if a < r.len() && b < r.len() {
                    assert(r[a] != r[b]);
                } else if a < r.len() {
                    assert(r.contains(r[a]));
                } else {
                    assert(r.contains(r[b]));
                }
            }
        }
    }
}

/// The contexts that a filter lets through are those that it names, all of them and in their
/// order; without a filter, all.
pub proof fn law_filter(
    a: Seq<ContextView>,
    b: Seq<ContextView>,
    c: ContextView,
    filter: Seq<Seq<char>>,
)
    ensures
        filtered(a + b, Some(filter)) == filtered(a, Some(filter)) + filtered(b, Some(filter)),
        filter.contains(c.id) ==> filtered(seq![c], Some(filter)) == seq![c],
        !filter.contains(c.id) ==> filtered(seq![c], Some(filter)) == Seq::<ContextView>::empty(),
        filtered(a, None) == a,
    decreases a.len() + b.len(),
{
    assert(seq![c].drop_last() =~= Seq::empty());
    assert(filtered(Seq::empty(), Some(filter)) =~= Seq::empty());
    assert(Seq::<ContextView>::empty().push(c) =~= seq![c]);
    if a.len() > 0 {
        law_filter(a.drop_last(), b, c, filter);
        assert(a.drop_last().push(a.last()) =~= a);
    } else {
        assert(filtered(a, None) =~= a);
    }
    if b.len() == 0 {
        assert(a + b =~= a);
        assert(filtered(a, Some(filter)) + filtered(b, Some(filter)) =~= filtered(a, Some(filter)));
    } else {
        law_filter(a, b.drop_last(), c, filter);
        assert((a + b).drop_last() =~= a + b.drop_last());
        assert((a + b).last() == b.last());
        let x = filtered(a, Some(filter));
        let y = filtered(b.drop_last(), Some(filter));
        assert(x + y.push(b.last()) =~= (x + y).push(b.last()));
    }
}

/// A refresh of everything, where it is queued, is all that is done.
pub proof fn law_refresh_of_all_covers_the_rest(jobs: Seq<JobView>, c: Seq<char>)
    ensures
        jobs.contains(JobView::All) ==> due(jobs) == seq![JobView::All],
        !jobs.contains(JobView::All) && jobs.contains(JobView::Context(c)) ==> due(jobs).contains(
            JobView::Context(c),
        ),
{
    lemma_without_repeats(jobs);
}

/// The kernel is told of each entry that is gone, of each file that changed and of each directory
/// that is listed anew, and of nothing else.
pub proof fn law_kernel_is_told_all(inv: InvalidationView, d: u64, i: u64, n: Seq<char>)
    ensures
        all_notices(inv).contains(NoticeView::Gone(d, i, n)) <==> inv.removed.contains((d, i, n)),
        all_notices(inv).contains(NoticeView::Stale(i)) <==> inv.changed.contains(i)
            || inv.dirty_dirs.contains(i),
        all_notices(inv).len() == inv.removed.len() + inv.changed.len() + inv.dirty_dirs.len(),
{
    let all = all_notices(inv);
    let r = inv.removed.len() as int;
    let c = inv.changed.len() as int;
    let both = inv.changed + inv.dirty_dirs;
    let x = NoticeView::Gone(d, i, n);
    if all.contains(x) {
        let j = choose|j: int| 0 <= j < all.len() && all[j] == x;
        if j < r {
            assert(inv.removed[j] == (d, i, n));
        } else {
            assert(all[j] == NoticeView::Stale(both[j - r]));
        }
    }
    if inv.removed.contains((d, i, n)) {
        let j = choose|j: int| 0 <= j < inv.removed.len() && inv.removed[j] == (d, i, n);
        assert(all[j] == x);
    }
    let y = NoticeView::Stale(i);
    if all.contains(y) {
        let j = choose|j: int| 0 <= j < all.len() && all[j] == y;
        assert(j >= r);
        assert(both[j - r] == i);
        if j - r < c {
            assert(inv.changed[j - r] == i);
        } else {
            assert(inv.dirty_dirs[j - r - c] == i);
        }
    }
    if inv.changed.contains(i) {
        let j = choose|j: int| 0 <= j < inv.changed.len() && inv.changed[j] == i;
        assert(both[j] == i);
        assert(all[r + j] == y);
    }
    if inv.dirty_dirs.contains(i) {
        let j = choose|j: int| 0 <= j < inv.dirty_dirs.len() && inv.dirty_dirs[j] == i;
        assert(both[c + j] == i);
        assert(all[r + c + j] == y);
    }
}

/// Everything is refreshed as often as it is asked for, but never more often than every five
/// seconds.
pub proof fn law_refreshes_are_spaced(secs: u64)
    ensures
        interval_of(secs) >= 5,
        interval_of(secs) >= secs,
        interval_of(secs) == 5 || interval_of(secs) == secs,
{
}

} // verus!
