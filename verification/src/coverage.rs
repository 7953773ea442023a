//! What the answers mean, and that a sweep covers every folder exactly once.

use vstd::prelude::*;
use crate::error::ErrorView;
use crate::laws;
use crate::model::{CompleteView, NextView, Score, SweepStatus, WorkStatus};
use crate::rows::SweepView;
use crate::state;
use crate::state::{ClaimView, StoreView};
use crate::tally;
use crate::validity;
use crate::walk;

verus! {

// --- what the answers mean -----------------------------------------------------------------

/// What a sweep's status says of its counters: in a complete one nothing is
/// left, and in an active one with folders something is.
pub open spec fn honest(r: SweepView) -> bool {
    match r.status {
        SweepStatus::Complete => r.pending == 0 && r.leased == 0,
        SweepStatus::Active => r.total > 0 ==> r.pending + r.leased > 0,
    }
}

/// Sweeps are in order, and the one that a task opened last is its newest.
pub open spec fn numbered(s: StoreView) -> bool {
    &&& s.ordered()
    &&& forall|k: int|
        0 <= k < s.tasks.len() ==> (#[trigger] s.tasks[k]).current_sweep == s.newest(
            s.tasks[k].name,
        )
}

/// Only a leased folder has an owner.
pub open spec fn tidy(s: StoreView) -> bool {
    forall|i: int|
        0 <= i < s.work.len() && (#[trigger] s.work[i]).status != WorkStatus::Leased
            ==> s.work[i].lease_owner is None
}

/// The counters are right, in a complete sweep nothing is left to cover, in an
/// active one with folders something is, a task's newest sweep is the one that
/// it opened last, and only a leased folder has an owner.
pub open spec fn truthful(s: StoreView) -> bool {
    &&& s.consistent()
    &&& forall|k: int| 0 <= k < s.sweeps.len() ==> honest(#[trigger] s.sweeps[k])
    &&& numbered(s)
    &&& tidy(s)
}

/// A change in place leaves the numbering of sweeps as it is.
proof fn lemma_numbered_kept(s: StoreView, t: StoreView)
    requires
        s.wf(),
        t.wf(),
        validity::same_keys(s, t),
        numbered(s),
    ensures
        numbered(t),
{
    validity::lemma_order_kept(s, t);
    assert forall|k: int| 0 <= k < t.tasks.len() implies (#[trigger] t.tasks[k]).current_sweep
        == t.newest(t.tasks[k].name) by {
        let name = s.tasks[k].name;
        validity::lemma_latest_kept(s, t, name);
        validity::lemma_latest(s, name);
        assert(t.tasks[k].name == name);
        if let Some(j) = s.latest(name) {
            assert(t.sweeps[j].sweep == s.sweeps[j].sweep);
        }
    }
}

/// Every folder of a sweep is covered.
pub open spec fn all_covered(s: StoreView, task: Seq<char>, sweep: i64) -> bool {
    forall|i: int|
        0 <= i < s.work.len() && (#[trigger] s.work[i]).belongs(task, sweep)
            ==> s.work[i].status.terminal()
}

/// Right counters without pending and leased folders mean that all is covered,
/// and the other way round.
pub proof fn lemma_all_covered(s: StoreView, k: int)
    requires
        0 <= k < s.sweeps.len(),
        s.right(s.sweeps[k]),
    ensures
        s.sweeps[k].pending >= 0,
        s.sweeps[k].leased >= 0,
        s.sweeps[k].pending + s.sweeps[k].leased == 0 <==> all_covered(
            s,
            s.sweeps[k].task,
            s.sweeps[k].sweep,
        ),
{
    let r = s.sweeps[k];
    let p = state::of_status(r.task, r.sweep, WorkStatus::Pending);
    let l = state::of_status(r.task, r.sweep, WorkStatus::Leased);
    assert(s.drift(r, WorkStatus::Pending) == 0);
    assert(s.drift(r, WorkStatus::Leased) == 0);
    tally::lemma_count_zero(s.work, p);
    tally::lemma_count_zero(s.work, l);
    if r.pending + r.leased == 0 {
        assert forall|i: int|
            0 <= i < s.work.len() && (#[trigger] s.work[i]).belongs(
                r.task,
                r.sweep,
            ) implies s.work[i].status.terminal() by {
            assert(!p(s.work[i]));
            assert(!l(s.work[i]));
        }
    }
    if all_covered(s, r.task, r.sweep) {
        assert forall|i: int| 0 <= i < s.work.len() implies !p(#[trigger] s.work[i]) && !l(
            s.work[i],
        ) by {}
    }
}

/// A claim changes the counters of its own sweep only, and leaves its status.
pub proof fn lemma_claim_counters(
    s: StoreView,
    task: Seq<char>,
    sweep: i64,
    agent: Option<Seq<char>>,
    ttl: i64,
    now: i64,
)
    requires
        s.wf(),
        s.sweep_at(task, sweep) is Some,
    ensures
        ({
            let k = s.sweep_at(task, sweep)->0;
            let (t, c) = s.claim(task, sweep, agent, ttl, now);
            &&& 0 <= k < s.sweeps.len()
            &&& t.sweeps.len() == s.sweeps.len()
            &&& t.sweeps[k].status == s.sweeps[k].status
            &&& t.sweeps[k].total == s.sweeps[k].total
            &&& t.sweeps[k].done == s.sweeps[k].done
            &&& t.sweeps[k].skipped == s.sweeps[k].skipped
            &&& t.sweeps[k].completed_at == s.sweeps[k].completed_at
            &&& t.sweeps[k].outstanding() == s.sweeps[k].outstanding()
            &&& forall|i: int|
                0 <= i < s.sweeps.len() && i != k ==> #[trigger] t.sweeps[i] == s.sweeps[i]
            &&& match c {
                ClaimView::Leased { remaining, .. } => remaining == t.sweeps[k].pending,
                ClaimView::NoneAvailable { leased } => leased == t.sweeps[k].leased && leased > 0,
                ClaimView::Empty => t.sweeps[k].leased <= 0,
            }
        }),
{
    validity::lemma_sweep_at(s, task, sweep);
    validity::lemma_reclaimed(s, task, sweep, now);
}

/// After a claim that leased nothing, nothing is pending.
pub proof fn lemma_nothing_pending(
    s: StoreView,
    task: Seq<char>,
    sweep: i64,
    agent: Option<Seq<char>>,
    ttl: i64,
    now: i64,
)
    requires
        s.wf(),
        s.sweep_at(task, sweep) is Some,
        s.claim(task, sweep, agent, ttl, now).1 !is Leased,
    ensures
        s.claim(task, sweep, agent, ttl, now).0.live(task, sweep, WorkStatus::Pending) == 0,
        forall|i: int|
            0 <= i < s.work.len() && (#[trigger] s.claim(
                task,
                sweep,
                agent,
                ttl,
                now,
            ).0.work[i]).belongs(task, sweep) ==> !s.claim(
                task,
                sweep,
                agent,
                ttl,
                now,
            ).0.work[i].expired(now),
{
    let t = s.claim(task, sweep, agent, ttl, now).0;
    let rank = state::by_score(task, sweep);
    tally::lemma_top(t.work, rank);
    tally::lemma_count_zero(t.work, state::of_status(task, sweep, WorkStatus::Pending));
    assert forall|i: int| 0 <= i < t.work.len() implies !state::of_status(
        task,
        sweep,
        WorkStatus::Pending,
    )(#[trigger] t.work[i]) by {
        assert(rank(t.work[i]) is None);
    }
}

/// `next` tells the truth. A claimed folder comes with the number of folders
/// that are still pending; `NoneAvailable` is answered exactly when nothing is
/// pending and some lease is live, and counts those; `SweepComplete` means that
/// every folder of the sweep is covered, and counts the done ones and all.
pub proof fn law_next_tells_the_truth(
    s: StoreView,
    task: Seq<char>,
    agent: Option<Seq<char>>,
    ttl: i64,
    auto: bool,
    now: i64,
    scores: Seq<Score>,
)
    requires
        laws::ready(s, task, agent, ttl, auto, now),
        truthful(s),
    ensures
        truthful(s.next_step(task, agent, ttl, auto, now, scores).0),
        ({
            let (t, v) = s.next_step(task, agent, ttl, auto, now, scores);
            match v {
                NextView::Claimed { sweep, remaining, .. } => remaining == t.live(
                    task,
                    sweep,
                    WorkStatus::Pending,
                ),
                NextView::NoneAvailable { sweep, leased_outstanding, .. } => {
                    &&& t.live(task, sweep, WorkStatus::Pending) == 0
                    &&& leased_outstanding == t.live(task, sweep, WorkStatus::Leased)
                    &&& leased_outstanding > 0
                },
                NextView::SweepComplete { sweep, covered, total, note, .. } => {
                    &&& all_covered(t, task, sweep)
                    &&& covered == t.live(task, sweep, WorkStatus::Done)
                    &&& total == t.live_total(task, sweep)
                    &&& note is Some <==> total == 0
                },
            }
        }),
{
    let (u, v) = s.next_step(task, agent, ttl, auto, now, scores);
    laws::law_next_keeps_counters_right(s, task, agent, ttl, auto, now, scores);
    validity::lemma_latest(s, task);
    match s.opening(task, agent, ttl, auto, now) {
        Some(t) => {
            lemma_opening_truthful(s, task, agent, ttl, auto, now);
            lemma_open_and_claim_truthful(t, task, agent, ttl, now, scores);
        },
        None => {
            let k = s.latest(task)->0;
            let n = s.sweeps[k].sweep;
            if s.sweeps[k].status == SweepStatus::Complete {
                lemma_summary_truthful(s, task, n);
            } else {
                lemma_claim_truthful(s, task, n, agent, ttl, now);
            }
        },
    }
}

/// Of a complete sweep the summary is right.
proof fn lemma_summary_truthful(s: StoreView, task: Seq<char>, n: i64)
    requires
        s.wf(),
        truthful(s),
        s.sweep_at(task, n) matches Some(k) && s.sweeps[k].status == SweepStatus::Complete,
    ensures
        s.summary(task, n) matches NextView::SweepComplete { covered, total, note, .. } && {
            &&& all_covered(s, task, n)
            &&& covered == s.live(task, n, WorkStatus::Done)
            &&& total == s.live_total(task, n)
            &&& note is Some <==> total == 0
        },
{
    validity::lemma_sweep_at(s, task, n);
    let k = s.sweep_at(task, n)->0;
    lemma_all_covered(s, k);
    assert(s.drift(s.sweeps[k], WorkStatus::Done) == 0);
    assert(s.drift_total(s.sweeps[k]) == 0);
}

/// Closing a sweep in which nothing is left makes a state truthful that is so
/// but for this sweep's status.
proof fn lemma_closed_truthful(s: StoreView, task: Seq<char>, n: i64, now: i64)
    requires
        s.wf(),
        s.consistent(),
        numbered(s),
        tidy(s),
        s.sweep_at(task, n) matches Some(k) && s.sweeps[k].pending == 0 && s.sweeps[k].leased == 0
            && forall|i: int|
            0 <= i < s.sweeps.len() && i != k ==> honest(#[trigger] s.sweeps[i]),
    ensures
        truthful(s.closed(task, n, now)),
        s.closed(task, n, now).wf(),
        s.closed(task, n, now).sweep_at(task, n) == s.sweep_at(task, n),
        s.closed(task, n, now).sweeps[s.sweep_at(task, n)->0].status == SweepStatus::Complete,
{
    let t = s.closed(task, n, now);
    let k = s.sweep_at(task, n)->0;
    validity::lemma_sweep_at(s, task, n);
    validity::lemma_closed(s, task, n, now);
    laws::lemma_consistent(s, t);
    lemma_numbered_kept(s, t);
    assert forall|i: int| 0 <= i < t.sweeps.len() implies honest(#[trigger] t.sweeps[i]) by {
        assert(i != k ==> t.sweeps[i] == s.sweeps[i]);
    }
}

/// A claim gives an owner to the folder that it leases only.
proof fn lemma_claim_tidy(
    s: StoreView,
    task: Seq<char>,
    n: i64,
    agent: Option<Seq<char>>,
    ttl: i64,
    now: i64,
)
    requires
        s.wf(),
        tidy(s),
        s.sweep_at(task, n) is Some,
    ensures
        tidy(s.claim(task, n, agent, ttl, now).0),
{
    let (t, c) = s.claim(task, n, agent, ttl, now);
    laws::law_claim_takes_one(s, task, n, agent, ttl, now);
    validity::lemma_claim(s, task, n, agent, ttl, now);
    if let ClaimView::Leased { expires, .. } = c {
        let i = choose|i: int| #[trigger]
            laws::leases(s, t, task, n, agent, expires, now, i);
        assert forall|j: int|
            0 <= j < t.work.len() && (#[trigger] t.work[j]).status
                != WorkStatus::Leased implies t.work[j].lease_owner is None by {
            assert(j != i);
            assert(t.work[j] == laws::pooled(s.work[j], task, n, now));
        }
    } else {
        assert forall|j: int|
            0 <= j < t.work.len() && (#[trigger] t.work[j]).status
                != WorkStatus::Leased implies t.work[j].lease_owner is None by {
            assert(t.work[j] == laws::pooled(s.work[j], task, n, now));
        }
    }
}

/// A claim on an active sweep, and what `next` makes of it, is truthful.
proof fn lemma_claim_truthful(
    s: StoreView,
    task: Seq<char>,
    n: i64,
    agent: Option<Seq<char>>,
    ttl: i64,
    now: i64,
)
    requires
        s.wf(),
        truthful(s),
        s.sweep_at(task, n) matches Some(k) && s.sweeps[k].status == SweepStatus::Active,
    ensures
        ({
            let (t, c) = s.claim(task, n, agent, ttl, now);
            let (u, v) = t.settled(task, n, c, now);
            &&& t.wf()
            &&& truthful(t)
            &&& truthful(u)
            &&& match v {
                NextView::Claimed { sweep, remaining, .. } => sweep == n && remaining == u.live(
                    task,
                    n,
                    WorkStatus::Pending,
                ),
                NextView::NoneAvailable { sweep, leased_outstanding, .. } => {
                    &&& sweep == n
                    &&& u.live(task, n, WorkStatus::Pending) == 0
                    &&& leased_outstanding == u.live(task, n, WorkStatus::Leased)
                    &&& leased_outstanding > 0
                },
                NextView::SweepComplete { sweep, covered, total, note, .. } => {
                    &&& sweep == n
                    &&& all_covered(u, task, n)
                    &&& covered == u.live(task, n, WorkStatus::Done)
                    &&& total == u.live_total(task, n)
                    &&& note is Some <==> total == 0
                },
            }
            &&& c is Empty ==> truthful(t.closed(task, n, now))
        }),
{
    let k = s.sweep_at(task, n)->0;
    let (t, c) = s.claim(task, n, agent, ttl, now);
    validity::lemma_sweep_at(s, task, n);
    validity::lemma_claim(s, task, n, agent, ttl, now);
    validity::lemma_sweep_at(t, task, n);
    laws::lemma_consistent(s, t);
    lemma_claim_counters(s, task, n, agent, ttl, now);
    assert(truthful(t)) by {
        lemma_numbered_kept(s, t);
        lemma_claim_tidy(s, task, n, agent, ttl, now);
        assert forall|i: int| 0 <= i < t.sweeps.len() implies honest(#[trigger] t.sweeps[i]) by {
            assert(honest(s.sweeps[i]));
        }
    }
    assert(t.drift(t.sweeps[k], WorkStatus::Pending) == 0);
    assert(t.drift(t.sweeps[k], WorkStatus::Leased) == 0);
    if c !is Leased {
        lemma_nothing_pending(s, task, n, agent, ttl, now);
    }
    if c is Empty {
        lemma_closed_truthful(t, task, n, now);
        lemma_summary_truthful(t.closed(task, n, now), task, n);
    }
}

/// The state in which `next` opens a sweep is truthful.
proof fn lemma_opening_truthful(
    s: StoreView,
    task: Seq<char>,
    agent: Option<Seq<char>>,
    ttl: i64,
    auto: bool,
    now: i64,
)
    requires
        s.wf(),
        s.task_at(task) is Some,
        truthful(s),
    ensures
        s.opening(task, agent, ttl, auto, now) matches Some(t) ==> t.wf() && truthful(t)
            && t.refusal(task) is None,
{
    laws::lemma_opening(s, task, agent, ttl, auto, now);
    validity::lemma_latest(s, task);
    if let Some(k) = s.latest(task) {
        if s.sweeps[k].status == SweepStatus::Active {
            lemma_claim_truthful(s, task, s.sweeps[k].sweep, agent, ttl, now);
        }
    }
}

/// Opening a sweep is truthful.
pub proof fn lemma_opened_truthful(s: StoreView, task: Seq<char>, now: i64, scores: Seq<Score>)
    requires
        s.wf(),
        truthful(s),
        s.refusal(task) is None,
        s.has_room(task, now),
    ensures
        truthful(s.opened(task, now, scores)),
{
    let o = s.opened(task, now, scores);
    let m = s.sweeps.len() as int;
    validity::lemma_opened(s, task, now, scores);
    validity::lemma_task_at(s, task);
    laws::lemma_opened_consistent(s, task, now, scores);
    assert forall|i: int|
        0 <= i < o.work.len() && (#[trigger] o.work[i]).status
            != WorkStatus::Leased implies o.work[i].lease_owner is None by {
        if i < s.work.len() {
            assert(o.work[i] == s.work[i]);
        } else {
            assert(o.work[i] == s.board(task, scores)[i - s.work.len()]);
        }
    }
    assert forall|i: int| 0 <= i < o.sweeps.len() implies honest(#[trigger] o.sweeps[i]) by {
        if i < m {
            assert(o.sweeps[i] == s.sweeps[i]);
        }
    }
    assert forall|k: int| 0 <= k < o.tasks.len() implies (#[trigger] o.tasks[k]).current_sweep
        == o.newest(o.tasks[k].name) by {
        let name = s.tasks[k].name;
        assert(o.tasks[k].name == name);
        if name != task {
            assert(s.tasks[k].current_sweep == s.newest(name));
            assert forall|n: i64| #[trigger] validity::has_number(s, name, n)
                <==> validity::has_number(o, name, n) by {
                if validity::has_number(s, name, n) {
                    let i = choose|i: int|
                        0 <= i < s.sweeps.len() && (#[trigger] s.sweeps[i]).task == name
                            && s.sweeps[i].sweep == n;
                    assert(o.sweeps[i] == s.sweeps[i]);
                }
                if validity::has_number(o, name, n) {
                    let i = choose|i: int|
                        0 <= i < o.sweeps.len() && (#[trigger] o.sweeps[i]).task == name
                            && o.sweeps[i].sweep == n;
                    assert(o.sweeps[i] == s.sweeps[i]);
                }
            }
            validity::lemma_newest_same(s, o, name);
        }
    }
}

/// Opening a sweep and claiming its first folder is truthful.
proof fn lemma_open_and_claim_truthful(
    s: StoreView,
    task: Seq<char>,
    agent: Option<Seq<char>>,
    ttl: i64,
    now: i64,
    scores: Seq<Score>,
)
    requires
        s.wf(),
        truthful(s),
        s.refusal(task) is None,
        s.has_room(task, now),
    ensures
        ({
            let (u, v) = s.open_and_claim(task, agent, ttl, now, scores);
            &&& truthful(u)
            &&& match v {
                NextView::Claimed { sweep, remaining, .. } => remaining == u.live(
                    task,
                    sweep,
                    WorkStatus::Pending,
                ),
                NextView::NoneAvailable { .. } => false,
                NextView::SweepComplete { sweep, covered, total, note, .. } => {
                    &&& all_covered(u, task, sweep)
                    &&& covered == u.live(task, sweep, WorkStatus::Done)
                    &&& total == u.live_total(task, sweep)
                    &&& note is Some <==> total == 0
                },
            }
        }),
{
    let n = s.next_number(task);
    let o = s.opened(task, now, scores);
    validity::lemma_opened(s, task, now, scores);
    lemma_opened_truthful(s, task, now, scores);
    if s.folders.len() == 0 {
        lemma_closed_truthful(o, task, n, now);
        lemma_summary_truthful(o.closed(task, n, now), task, n);
    } else {
        validity::lemma_open_claims(s, task, agent, ttl, now, scores);
        lemma_claim_truthful(o, task, n, agent, ttl, now);
    }
}

/// `complete` tells the truth: `remaining` counts the folders of the sweep that
/// are not covered; the sweep is complete afterwards exactly when there is none;
/// and it is reported as completed exactly when this completion covered the last
/// of them.
pub proof fn law_complete_tells_the_truth(
    s: StoreView,
    task: Seq<char>,
    path: Seq<char>,
    agent: Option<Seq<char>>,
    status: WorkStatus,
    reason: Option<Seq<char>>,
    found: Option<i64>,
    now: i64,
)
    requires
        s.wf(),
        truthful(s),
    ensures
        s.complete(task, path, agent, status, reason, found, now) matches Ok((t, v)) ==> {
            &&& truthful(t)
            &&& v.remaining == t.live(task, v.sweep, WorkStatus::Pending) + t.live(
                task,
                v.sweep,
                WorkStatus::Leased,
            )
            &&& t.sweep_at(task, v.sweep) matches Some(k) && (t.sweeps[k].status
                == SweepStatus::Complete <==> all_covered(t, task, v.sweep))
            &&& v.remaining == 0 <==> all_covered(t, task, v.sweep)
            &&& v.sweep_complete <==> all_covered(t, task, v.sweep) && !all_covered(
                s,
                task,
                v.sweep,
            )
        },
{
    if let Ok((t, v)) = s.complete(task, path, agent, status, reason, found, now) {
        let rank = state::by_relevance(task, path, agent);
        tally::lemma_top(s.work, rank);
        let i = tally::top(s.work, rank)->0;
        assert(rank(s.work[i]) is Some);
        let row = s.work[i];
        let n = row.sweep;
        validity::lemma_placed(s, i);
        let m = if row.status.terminal() {
            s
        } else {
            s.covered(i, agent, status, reason, found, now)
        };
        let k = s.sweep_at(task, n)->0;
        validity::lemma_sweep_at(s, task, n);
        if row.status.terminal() {
            validity::lemma_drift_of_board(s, s);
        } else {
            validity::lemma_covered(s, i, agent, status, reason, found, now);
            lemma_all_covered(s, k);
        }
        laws::lemma_consistent(s, m);
        validity::lemma_sweep_at(m, task, n);
        lemma_numbered_kept(s, m);
        lemma_all_covered(s, k);
        lemma_all_covered(m, k);
        assert(s.work[i].belongs(task, n));
        assert forall|j: int| 0 <= j < m.sweeps.len() && j != k implies honest(
            #[trigger] m.sweeps[j],
        ) by {
            assert(m.sweeps[j] == s.sweeps[j]);
        }
        assert(honest(s.sweeps[k]));
        assert(m.drift(m.sweeps[k], WorkStatus::Pending) == 0);
        assert(m.drift(m.sweeps[k], WorkStatus::Leased) == 0);
        if m.sweeps[k].outstanding() == 0 {
            lemma_closed_truthful(m, task, n, now);
            lemma_all_covered(t, k);
        } else {
            assert(honest(m.sweeps[k]));
        }
        if row.status.terminal() && m.sweeps[k].outstanding() == 0 {
            assert(all_covered(s, task, n));
        }
    }
}

/// Collecting expired leases and clearing a task keep the state truthful.
pub proof fn law_control_keeps_the_truth(s: StoreView, task: Seq<char>, all: bool, now: i64)
    requires
        s.wf(),
        truthful(s),
    ensures
        truthful(s.swept(now)),
        truthful(s.reset(task, all)),
{
    laws::law_control_keeps_counters_right(s, task, all, now);
    let t = s.swept(now);
    validity::lemma_swept(s, now);
    lemma_numbered_kept(s, t);
    assert forall|k: int| 0 <= k < t.sweeps.len() implies honest(#[trigger] t.sweeps[k]) by {
        let r = s.sweeps[k];
        assert(honest(r));
        if r.status == SweepStatus::Complete {
            lemma_all_covered(s, k);
            tally::lemma_count_zero(s.work, state::due(r.task, r.sweep, now));
            assert forall|i: int| 0 <= i < s.work.len() implies !state::due(r.task, r.sweep, now)(
                #[trigger] s.work[i],
            ) by {}
        }
    }
    let u = s.reset(task, all);
    tally::lemma_kept(s.sweeps, state::sweep_elsewhere(task));
    assert forall|k: int| 0 <= k < u.sweeps.len() implies honest(#[trigger] u.sweeps[k]) by {
        let j = choose|j: int| 0 <= j < s.sweeps.len() && s.sweeps[j] == u.sweeps[k];
        assert(honest(s.sweeps[j]));
    }
    lemma_reset_numbered(s, task, all);
    tally::lemma_kept(s.work, state::work_elsewhere(task));
    assert forall|i: int|
        0 <= i < u.work.len() && (#[trigger] u.work[i]).status
            != WorkStatus::Leased implies u.work[i].lease_owner is None by {
        let j = choose|j: int| 0 <= j < s.work.len() && s.work[j] == u.work[i];
        assert(s.work[j].status != WorkStatus::Leased);
    }
}

/// Clearing a task leaves the numbering of the other tasks' sweeps as it is.
proof fn lemma_reset_numbered(s: StoreView, task: Seq<char>, all: bool)
    requires
        s.wf(),
        numbered(s),
    ensures
        numbered(s.reset(task, all)),
{
    let u = s.reset(task, all);
    let keep = state::sweep_elsewhere(task);
    validity::lemma_reset(s, task, all);
    validity::lemma_latest(u, task);
    tally::lemma_kept(s.sweeps, keep);
    assert forall|k: int| 0 <= k < u.tasks.len() implies (#[trigger] u.tasks[k]).current_sweep
        == u.newest(u.tasks[k].name) by {
        let name = s.tasks[k].name;
        assert(u.tasks[k].name == name);
        if name == task {
            if let Some(j) = u.latest(task) {
                assert(keep(u.sweeps[j]));
            }
        } else {
            assert(s.tasks[k].current_sweep == s.newest(name));
            assert forall|n: i64| #[trigger] validity::has_number(s, name, n)
                <==> validity::has_number(u, name, n) by {
                if validity::has_number(s, name, n) {
                    let i = choose|i: int|
                        0 <= i < s.sweeps.len() && (#[trigger] s.sweeps[i]).task == name
                            && s.sweeps[i].sweep == n;
                    assert(keep(s.sweeps[i]));
                    assert(u.sweeps.contains(s.sweeps[i]));
                    let j = choose|j: int| 0 <= j < u.sweeps.len() && u.sweeps[j] == s.sweeps[i];
                    assert(u.sweeps[j].task == name);
                }
                if validity::has_number(u, name, n) {
                    let i = choose|i: int|
                        0 <= i < u.sweeps.len() && (#[trigger] u.sweeps[i]).task == name
                            && u.sweeps[i].sweep == n;
                    let j = choose|j: int| 0 <= j < s.sweeps.len() && s.sweeps[j] == u.sweeps[i];
                    assert(s.sweeps[j].task == name);
                }
            }
            validity::lemma_newest_same(s, u, name);
        }
    }
}

// --- claiming, then completing -----------------------------------------------------------

/// Row `i` of the board is the one that a completion of its path means, if no
/// other outstanding row of the path is in a later sweep, or leased to the agent
/// where this one is not.
pub proof fn lemma_means_row(s: StoreView, i: int, agent: Option<Seq<char>>)
    requires
        s.wf(),
        0 <= i < s.work.len(),
        s.work[i].status.outstanding(),
        agent is Some ==> s.work[i].lease_owner == agent,
        forall|k: int|
            0 <= k < s.sweeps.len() && (#[trigger] s.sweeps[k]).task == s.work[i].task
                ==> s.sweeps[k].sweep <= s.work[i].sweep,
    ensures
        tally::top(s.work, state::by_relevance(s.work[i].task, s.work[i].path, agent)) == Some(i),
{
    let rank = state::by_relevance(s.work[i].task, s.work[i].path, agent);
    assert forall|j: int|
        0 <= j < s.work.len() && rank(#[trigger] s.work[j]) is Some && j != i implies tally::above(
        rank(s.work[i])->0,
        rank(s.work[j])->0,
    ) by {
        assert(s.placed(s.work[j]));
        if j < i {
            assert(s.work[j].sweep != s.work[i].sweep);
        } else {
            assert(s.work[i].sweep != s.work[j].sweep);
        }
    }
    assert(tally::is_top(s.work, rank, i));
    tally::lemma_top_unique(s.work, rank, i);
}

/// What a completion does to the outstanding row that it means.
pub proof fn lemma_completes_row(
    s: StoreView,
    i: int,
    agent: Option<Seq<char>>,
    status: WorkStatus,
    reason: Option<Seq<char>>,
    found: Option<i64>,
    now: i64,
)
    requires
        s.wf(),
        0 <= i < s.work.len(),
        s.work[i].status.outstanding(),
        status.terminal(),
        tally::top(s.work, state::by_relevance(s.work[i].task, s.work[i].path, agent)) == Some(i),
    ensures
        s.complete(s.work[i].task, s.work[i].path, agent, status, reason, found, now) matches Ok((
            t,
            v,
        )) && {
            let m = s.covered(i, agent, status, reason, found, now);
            let k = s.sweep_at(s.work[i].task, s.work[i].sweep)->0;
            &&& t.wf()
            &&& validity::same_keys(s, t)
            &&& validity::same_drift(s, t)
            &&& t.work == s.work.update(i, s.work[i].finished(status, now))
            &&& t.visits == m.visits
            &&& t.tasks == s.tasks
            &&& t.folders == s.folders
            &&& 0 <= k < s.sweeps.len()
            &&& s.sweeps[k].task == s.work[i].task
            &&& s.sweeps[k].sweep == s.work[i].sweep
            &&& t.sweeps[k] == if m.sweeps[k].outstanding() == 0 {
                m.sweeps[k].closed(now)
            } else {
                m.sweeps[k]
            }
            &&& v.sweep == s.work[i].sweep
            &&& v.path == s.work[i].path
            &&& v.status == status.name()
            &&& v.remaining == m.sweeps[k].outstanding()
            &&& forall|j: int|
                0 <= j < s.sweeps.len() && j != k ==> #[trigger] t.sweeps[j] == s.sweeps[j]
        },
{
    let row = s.work[i];
    let m = s.covered(i, agent, status, reason, found, now);
    validity::lemma_placed(s, i);
    validity::lemma_covered(s, i, agent, status, reason, found, now);
    validity::lemma_closed(m, row.task, row.sweep, now);
    let c = m.closed(row.task, row.sweep, now);
    validity::lemma_drift_chain(s, m, c);
    validity::lemma_sweep_at(m, row.task, row.sweep);
}

/// What `next` hands to an agent, that agent's `complete` covers: the folder's
/// row in the sweep that it was claimed in gets the status, and one visit with
/// the report is added to the history.
pub proof fn law_done_covers_what_was_claimed(
    s: StoreView,
    task: Seq<char>,
    agent: Option<Seq<char>>,
    ttl: i64,
    now: i64,
    status: WorkStatus,
    reason: Option<Seq<char>>,
    found: Option<i64>,
    later: i64,
)
    requires
        s.wf(),
        s.latest(task) is Some,
        status.terminal(),
    ensures
        ({
            let n = s.sweeps[s.latest(task)->0].sweep;
            let (t, c) = s.claim(task, n, agent, ttl, now);
            c matches ClaimView::Leased { path, .. } ==> (t.complete(
                task,
                path,
                agent,
                status,
                reason,
                found,
                later,
            ) matches Ok((u, v)) && {
                &&& v.sweep == n
                &&& v.path == path
                &&& v.status == status.name()
                &&& u.visits.len() == s.visits.len() + 1
                &&& u.visits.last().path == path
                &&& u.visits.last().status == status
                &&& u.visits.last().agent == agent
                &&& u.visits.last().reason == reason
                &&& u.visits.last().outcome == found
                &&& u.visits.last().visited_at == later
                &&& exists|i: int|
                    0 <= i < u.work.len() && (#[trigger] u.work[i]).belongs(task, n)
                        && u.work[i].path == path && u.work[i].status == status
            })
        }),
{
    let k = s.latest(task)->0;
    let n = s.sweeps[k].sweep;
    let (t, c) = s.claim(task, n, agent, ttl, now);
    validity::lemma_latest(s, task);
    validity::lemma_claim(s, task, n, agent, ttl, now);
    validity::lemma_latest_kept(s, t, task);
    validity::lemma_latest(t, task);
    laws::law_claim_takes_one(s, task, n, agent, ttl, now);
    if let ClaimView::Leased { path, expires, .. } = c {
        let i = choose|i: int| #[trigger]
            laws::leases(s, t, task, n, agent, expires, now, i) && s.work[i].path == path;
        assert(t.work[i].status == WorkStatus::Leased);
        assert(t.sweeps[k].sweep == n);
        lemma_means_row(t, i, agent);
        lemma_completes_row(t, i, agent, status, reason, found, later);
        let u = t.complete(task, path, agent, status, reason, found, later)->Ok_0.0;
        assert(t.visits == s.visits);
        assert(u.work[i].belongs(task, n));
    }
}

/// In a truthful state a folder that is not covered is in its task's newest
/// sweep.
pub proof fn lemma_outstanding_in_newest(s: StoreView, i: int)
    requires
        s.wf(),
        truthful(s),
        0 <= i < s.work.len(),
        s.work[i].status.outstanding(),
    ensures
        s.latest(s.work[i].task) matches Some(k) && s.sweeps[k].sweep == s.work[i].sweep
            && s.sweeps[k].status == SweepStatus::Active,
{
    let row = s.work[i];
    validity::lemma_placed(s, i);
    let k = s.sweep_at(row.task, row.sweep)->0;
    assert(honest(s.sweeps[k]));
    lemma_all_covered(s, k);
    assert(row.belongs(row.task, row.sweep));
    laws::law_one_active_sweep(s, k, k);
}

/// It is clear which row of a path is meant: one that is not covered is in a later
/// sweep than all the others, which are, and a covered one has no owner.
pub open spec fn unambiguous(s: StoreView, task: Seq<char>, path: Seq<char>) -> bool {
    &&& forall|i: int|
        0 <= i < s.work.len() && (#[trigger] s.work[i]).task == task && s.work[i].path == path
            && s.work[i].status.terminal() ==> s.work[i].lease_owner is None
    &&& forall|i: int, j: int|
        #![trigger s.work[i], s.work[j]]
        0 <= i < s.work.len() && 0 <= j < s.work.len() && i != j && s.work[i].task == task
            && s.work[i].path == path && s.work[j].task == task && s.work[j].path == path
            && s.work[i].status.outstanding() ==> s.work[j].status.terminal() && s.work[j].sweep
            < s.work[i].sweep
}

/// In a truthful state it is clear which row of a path is meant.
pub proof fn law_truthful_is_unambiguous(s: StoreView, task: Seq<char>, path: Seq<char>)
    requires
        s.wf(),
        truthful(s),
    ensures
        unambiguous(s, task, path),
{
    validity::lemma_latest(s, task);
    assert forall|i: int, j: int|
        #![trigger s.work[i], s.work[j]]
        0 <= i < s.work.len() && 0 <= j < s.work.len() && i != j && s.work[i].task == task
            && s.work[i].path == path && s.work[j].task == task && s.work[j].path == path
            && s.work[i].status.outstanding() implies s.work[j].status.terminal()
        && s.work[j].sweep < s.work[i].sweep by {
        lemma_outstanding_in_newest(s, i);
        validity::lemma_placed(s, j);
        if s.work[j].status.outstanding() {
            lemma_outstanding_in_newest(s, j);
        }
        if j < i {
            assert(s.work[j].sweep != s.work[i].sweep);
        } else {
            assert(s.work[i].sweep != s.work[j].sweep);
        }
    }
}

/// Completing a path again, whoever does it and with whatever report, changes
/// nothing and adds no visit; it answers with the status that was recorded
/// first and with what is left of the same sweep, and does not report the sweep
/// as completed once more. This holds where it is clear which row of the path is
/// meant, whatever the counters say.
pub proof fn law_completing_again_changes_nothing(
    s: StoreView,
    task: Seq<char>,
    path: Seq<char>,
    agent: Option<Seq<char>>,
    status: WorkStatus,
    reason: Option<Seq<char>>,
    found: Option<i64>,
    now: i64,
    other: Option<Seq<char>>,
    status2: WorkStatus,
    reason2: Option<Seq<char>>,
    found2: Option<i64>,
    later: i64,
)
    requires
        s.wf(),
        unambiguous(s, task, path),
        status2.terminal(),
        s.complete(task, path, agent, status, reason, found, now) is Ok,
    ensures
        ({
            let (t, v) = s.complete(task, path, agent, status, reason, found, now)->Ok_0;
            t.complete(task, path, other, status2, reason2, found2, later) == Ok::<
                (StoreView, CompleteView),
                ErrorView,
            >((t, CompleteView { sweep_complete: false, ..v }))
        }),
{
    let (t, v) = s.complete(task, path, agent, status, reason, found, now)->Ok_0;
    let i = lemma_completed(s, task, path, agent, status, reason, found, now);
    lemma_completed_is_newest(s, task, path, agent, status, reason, found, now);
    let again = state::by_relevance(task, path, other);
    assert forall|j: int|
        0 <= j < t.work.len() && again(#[trigger] t.work[j]) is Some && j != i implies tally::above(
        again(t.work[i])->0,
        again(t.work[j])->0,
    ) by {
        assert(t.work[j].status.terminal() && t.work[j].sweep <= t.work[i].sweep);
        assert(t.work[j] == s.work[j]);
        assert(t.work[j].lease_owner is None && t.work[i].lease_owner is None);
        if j < i {
            assert(t.work[j].sweep != t.work[i].sweep);
        } else {
            assert(t.work[i].sweep != t.work[j].sweep);
        }
    }
    assert(tally::is_top(t.work, again, i));
    tally::lemma_top_unique(t.work, again, i);
    let k = t.sweep_at(task, v.sweep)->0;
    if t.sweeps[k].outstanding() == 0 {
        assert(t.closed(task, v.sweep, later).sweeps =~= t.sweeps);
    }
}

/// After a completion no folder of the path is left to cover, and the row that
/// it meant is the one of the newest sweep.
proof fn lemma_completed_is_newest(
    s: StoreView,
    task: Seq<char>,
    path: Seq<char>,
    agent: Option<Seq<char>>,
    status: WorkStatus,
    reason: Option<Seq<char>>,
    found: Option<i64>,
    now: i64,
)
    requires
        s.wf(),
        unambiguous(s, task, path),
        s.complete(task, path, agent, status, reason, found, now) is Ok,
    ensures
        ({
            let (t, v) = s.complete(task, path, agent, status, reason, found, now)->Ok_0;
            forall|j: int|
                0 <= j < t.work.len() && (#[trigger] t.work[j]).task == task && t.work[j].path
                    == path ==> t.work[j].status.terminal() && t.work[j].sweep <= v.sweep
        }),
{
    let (t, v) = s.complete(task, path, agent, status, reason, found, now)->Ok_0;
    let i = lemma_completed(s, task, path, agent, status, reason, found, now);
    let rank = state::by_relevance(task, path, agent);
    tally::lemma_top(s.work, rank);
    assert forall|j: int|
        0 <= j < t.work.len() && (#[trigger] t.work[j]).task == task && t.work[j].path
            == path implies t.work[j].status.terminal() && t.work[j].sweep <= v.sweep by {
        assert(rank(s.work[i]) is Some);
        if j != i {
            assert(t.work[j] == s.work[j]);
            assert(rank(s.work[j]) is Some);
            if !s.work[i].status.outstanding() {
                assert(!tally::above(rank(s.work[j])->0, rank(s.work[i])->0));
                assert(!s.work[j].status.outstanding());
            }
        }
    }
}

/// After a completion: the row that it meant, what it answered of it, and that
/// its sweep is closed if nothing is left in it.
pub proof fn lemma_completed(
    s: StoreView,
    task: Seq<char>,
    path: Seq<char>,
    agent: Option<Seq<char>>,
    status: WorkStatus,
    reason: Option<Seq<char>>,
    found: Option<i64>,
    now: i64,
) -> (i: int)
    requires
        s.wf(),
        s.complete(task, path, agent, status, reason, found, now) is Ok,
    ensures
        ({
            let (t, v) = s.complete(task, path, agent, status, reason, found, now)->Ok_0;
            let k = t.sweep_at(task, t.work[i].sweep)->0;
            &&& t.wf()
            &&& 0 <= i < t.work.len()
            &&& t.work[i].task == task
            &&& t.work[i].path == path
            &&& t.sweep_at(task, t.work[i].sweep) is Some
            &&& 0 <= k < t.sweeps.len()
            &&& v == (CompleteView {
                status: t.work[i].status.name(),
                task,
                sweep: t.work[i].sweep,
                path,
                remaining: t.sweeps[k].outstanding(),
                sweep_complete: v.sweep_complete,
            })
            &&& v.sweep_complete <==> t.sweeps[k].outstanding() == 0 && s.work[i].status.outstanding()
            &&& t.sweeps[k].outstanding() == 0 ==> t.sweeps[k].status == SweepStatus::Complete
            &&& t.work[i].status.terminal()
            &&& s.work[i].status.outstanding() ==> t.work[i].lease_owner is None
            &&& t.work.len() == s.work.len()
            &&& forall|j: int|
                0 <= j < s.work.len() && (j != i || s.work[i].status.terminal())
                    ==> #[trigger] t.work[j] == s.work[j]
            &&& tally::top(s.work, state::by_relevance(task, path, agent)) == Some(i)
        }),
{
    let (t, v) = s.complete(task, path, agent, status, reason, found, now)->Ok_0;
    let rank = state::by_relevance(task, path, agent);
    tally::lemma_top(s.work, rank);
    let i = tally::top(s.work, rank)->0;
    assert(rank(s.work[i]) is Some);
    let row = s.work[i];
    validity::lemma_placed(s, i);
    let m = if row.status.terminal() {
        s
    } else {
        s.covered(i, agent, status, reason, found, now)
    };
    if !row.status.terminal() {
        validity::lemma_covered(s, i, agent, status, reason, found, now);
    }
    validity::lemma_closed(m, task, row.sweep, now);
    validity::lemma_sweep_at(m, task, row.sweep);
    i
}

// --- draining a sweep ----------------------------------------------------------------------

/// One round of an agent's loop: ask for a folder, then report it.
pub open spec fn round(
    s: StoreView,
    task: Seq<char>,
    agent: Option<Seq<char>>,
    ttl: i64,
    status: WorkStatus,
    now: i64,
) -> (StoreView, Seq<char>) {
    let (t, v) = s.next_step(task, agent, ttl, false, now, Seq::empty());
    let path = v->path;
    (t.complete(task, walk::stored_form(path), agent, status, None, None, now)->Ok_0.0, path)
}

/// `k` rounds, and the paths that were handed out in them.
pub open spec fn rounds(
    s: StoreView,
    task: Seq<char>,
    agent: Option<Seq<char>>,
    ttl: i64,
    status: WorkStatus,
    now: i64,
    k: nat,
) -> (StoreView, Seq<Seq<char>>)
    decreases k,
{
    if k == 0 {
        (s, Seq::empty())
    } else {
        let (t, paths) = rounds(s, task, agent, ttl, status, now, (k - 1) as nat);
        let (u, path) = round(t, task, agent, ttl, status, now);
        (u, paths.push(path))
    }
}

/// The task's newest sweep has number `n`, none of its folders is leased, its
/// counters are right, it is active as long as a folder is pending, and its
/// paths are in stored form.
pub open spec fn workable(s: StoreView, task: Seq<char>, n: i64) -> bool {
    &&& s.wf()
    &&& s.latest(task) matches Some(k) && {
        let r = s.sweeps[k];
        &&& r.sweep == n
        &&& s.drift_total(r) == 0
        &&& forall|status: WorkStatus| #[trigger] s.drift(r, status) == 0
        &&& s.live(task, n, WorkStatus::Pending) > 0 ==> r.status == SweepStatus::Active
    }
    &&& forall|i: int|
        0 <= i < s.work.len() && (#[trigger] s.work[i]).belongs(task, n) ==> s.work[i].status
            != WorkStatus::Leased && walk::stored_form(s.work[i].path) == s.work[i].path
}

/// The board counts once a pending folder was covered and none is leased.
proof fn lemma_one_covered(
    s: StoreView,
    u: StoreView,
    i: int,
    task: Seq<char>,
    n: i64,
    status: WorkStatus,
)
    requires
        0 <= i < s.work.len(),
        u.work.len() == s.work.len(),
        s.work[i].belongs(task, n),
        s.work[i].status == WorkStatus::Pending,
        u.work[i].belongs(task, n),
        u.work[i].status == status,
        status.terminal(),
        forall|j: int| 0 <= j < s.work.len() && j != i ==> #[trigger] u.work[j] == s.work[j],
        forall|j: int|
            0 <= j < s.work.len() && (#[trigger] s.work[j]).belongs(task, n) ==> s.work[j].status
                != WorkStatus::Leased,
    ensures
        u.live(task, n, WorkStatus::Pending) == s.live(task, n, WorkStatus::Pending) - 1,
        u.live(task, n, WorkStatus::Leased) == 0,
        u.live(task, n, status) == s.live(task, n, status) + 1,
        u.live_total(task, n) == s.live_total(task, n),
{
    let x = u.work[i];
    let leased = state::of_status(task, n, WorkStatus::Leased);
    assert(u.work =~= s.work.update(i, x));
    tally::lemma_count_update(s.work, state::of_status(task, n, WorkStatus::Pending), i, x);
    tally::lemma_count_update(s.work, state::of_status(task, n, status), i, x);
    tally::lemma_count_update(s.work, state::of_sweep(task, n), i, x);
    tally::lemma_count_zero(u.work, leased);
    assert forall|j: int| 0 <= j < u.work.len() implies !leased(#[trigger] u.work[j]) by {
        if j != i {
            assert(u.work[j] == s.work[j]);
        }
    }
}

/// A round with a folder pending hands one out that was, and covers it: nothing
/// else on the board changes.
#[verifier::spinoff_prover]
#[verifier::rlimit(40)]
proof fn lemma_round(
    s: StoreView,
    task: Seq<char>,
    n: i64,
    agent: Option<Seq<char>>,
    ttl: i64,
    status: WorkStatus,
    now: i64,
) -> (i: int)
    requires
        workable(s, task, n),
        s.live(task, n, WorkStatus::Pending) > 0,
        status.terminal(),
    ensures
        0 <= i < s.work.len(),
        s.work[i].belongs(task, n),
        s.work[i].status == WorkStatus::Pending,
        s.next_step(task, agent, ttl, false, now, Seq::empty()).1 matches NextView::Claimed {
            remaining,
            ..
        } && remaining == s.live(task, n, WorkStatus::Pending) - 1,
        ({
            let (t, path) = round(s, task, agent, ttl, status, now);
            &&& workable(t, task, n)
            &&& path == s.work[i].path
            &&& t.work.len() == s.work.len()
            &&& t.work[i].belongs(task, n)
            &&& t.work[i].path == path
            &&& t.work[i].status == status
            &&& forall|j: int|
                0 <= j < s.work.len() && j != i ==> #[trigger] t.work[j] == s.work[j]
            &&& t.live(task, n, WorkStatus::Pending) == s.live(task, n, WorkStatus::Pending) - 1
            &&& t.live(task, n, status) == s.live(task, n, status) + 1
            &&& t.live_total(task, n) == s.live_total(task, n)
            &&& t.live(task, n, WorkStatus::Pending) == 0 ==> t.sweeps[t.latest(task)->0].status
                == SweepStatus::Complete
        }),
{
    let k = s.latest(task)->0;
    let (t, c) = s.claim(task, n, agent, ttl, now);
    validity::lemma_latest(s, task);
    validity::lemma_claim(s, task, n, agent, ttl, now);
    validity::lemma_latest_kept(s, t, task);
    validity::lemma_latest(t, task);
    laws::law_claim_takes_one(s, task, n, agent, ttl, now);
    laws::law_highest_score_first(s, task, n, agent, ttl, now);
    let pending = state::of_status(task, n, WorkStatus::Pending);
    tally::lemma_count_zero(s.work, pending);
    assert(c is Leased) by {
        let p = choose|p: int| 0 <= p < s.work.len() && pending(#[trigger] s.work[p]);
        assert(s.work[p].belongs(task, n));
    }
    let path = c->path;
    let i = choose|i: int| #[trigger]
        laws::leases(s, t, task, n, agent, c->expires, now, i) && s.work[i].path == path;
    assert forall|j: int| 0 <= j < s.work.len() && j != i implies #[trigger] t.work[j]
        == s.work[j] by {
        assert(laws::pooled(s.work[j], task, n, now) == s.work[j]);
    }
    assert(t.work[i].status == WorkStatus::Leased);
    assert(t.sweeps[k].sweep == n);
    lemma_means_row(t, i, agent);
    lemma_completes_row(t, i, agent, status, None, None, now);
    let u = t.complete(task, path, agent, status, None, None, now)->Ok_0.0;
    validity::lemma_latest_kept(t, u, task);
    validity::lemma_latest(u, task);
    lemma_one_covered(s, u, i, task, n, status);
    validity::lemma_drift_chain(s, t, u);
    assert(validity::same_drift_at(s, u, k));
    let r = u.sweeps[k];
    assert(s.drift(s.sweeps[k], WorkStatus::Pending) == u.drift(r, WorkStatus::Pending));
    assert(s.drift(s.sweeps[k], WorkStatus::Leased) == u.drift(r, WorkStatus::Leased));
    assert forall|st: WorkStatus| #[trigger] u.drift(r, st) == 0 by {
        assert(s.drift(s.sweeps[k], st) == u.drift(r, st));
    }
    lemma_claim_counters(s, task, n, agent, ttl, now);
    i
}

/// `k` rounds hand out `k` different folders, each of which was pending and is
/// covered then; the others are still as they were.
proof fn lemma_rounds(
    s: StoreView,
    task: Seq<char>,
    n: i64,
    agent: Option<Seq<char>>,
    ttl: i64,
    status: WorkStatus,
    now: i64,
    k: nat,
)
    requires
        workable(s, task, n),
        status.terminal(),
        k <= s.live(task, n, WorkStatus::Pending),
    ensures
        ({
            let (t, paths) = rounds(s, task, agent, ttl, status, now, k);
            &&& workable(t, task, n)
            &&& paths.len() == k
            &&& paths.no_duplicates()
            &&& t.work.len() == s.work.len()
            &&& t.live(task, n, WorkStatus::Pending) == s.live(task, n, WorkStatus::Pending) - k
            &&& t.live(task, n, status) == s.live(task, n, status) + k
            &&& t.live_total(task, n) == s.live_total(task, n)
            &&& k > 0 && t.live(task, n, WorkStatus::Pending) == 0 ==> t.sweeps[t.latest(
                task,
            )->0].status == SweepStatus::Complete
            &&& forall|i: int|
                #![trigger s.work[i]]
                #![trigger t.work[i]]
                0 <= i < s.work.len() ==> if s.work[i].belongs(task, n) && s.work[i].status
                    == WorkStatus::Pending && paths.contains(s.work[i].path) {
                    t.work[i].belongs(task, n) && t.work[i].path == s.work[i].path
                        && t.work[i].status == status
                } else {
                    t.work[i] == s.work[i]
                }
            &&& forall|m: int|
                0 <= m < k ==> exists|i: int|
                    0 <= i < s.work.len() && (#[trigger] s.work[i]).belongs(task, n)
                        && s.work[i].status == WorkStatus::Pending && s.work[i].path
                        == #[trigger] paths[m]
        }),
    decreases k,
{
    if k > 0 {
        let (t, ps) = rounds(s, task, agent, ttl, status, now, (k - 1) as nat);
        let (u, path) = round(t, task, agent, ttl, status, now);
        lemma_rounds(s, task, n, agent, ttl, status, now, (k - 1) as nat);
        let i = lemma_round(t, task, n, agent, ttl, status, now);
        let paths = ps.push(path);
        assert(t.work[i] == s.work[i]);
        assert(!ps.contains(path)) by {
            if ps.contains(path) {
                assert(t.work[i].status == status);
            }
        }
        assert(paths.no_duplicates());
        assert forall|p: Seq<char>| #[trigger] paths.contains(p) <==> ps.contains(p) || p == path by {
            if ps.contains(p) {
                let m = choose|m: int| 0 <= m < ps.len() && ps[m] == p;
                assert(paths[m] == p);
            }
            if p == path {
                assert(paths[ps.len() as int] == p);
            }
        }
        assert forall|j: int|
            #![trigger s.work[j]]
            #![trigger u.work[j]]
            0 <= j < s.work.len() implies if s.work[j].belongs(task, n) && s.work[j].status
            == WorkStatus::Pending && paths.contains(s.work[j].path) {
            u.work[j].belongs(task, n) && u.work[j].path == s.work[j].path && u.work[j].status
                == status
        } else {
            u.work[j] == s.work[j]
        } by {
            if j != i {
                assert(u.work[j] == t.work[j]);
                if s.work[j].belongs(task, n) && s.work[j].path == path {
                    if i < j {
                        assert(s.work[i].path != s.work[j].path);
                    } else {
                        assert(s.work[j].path != s.work[i].path);
                    }
                }
            }
        }
        assert forall|m: int| 0 <= m < k implies exists|j: int|
            0 <= j < s.work.len() && (#[trigger] s.work[j]).belongs(task, n) && s.work[j].status
                == WorkStatus::Pending && s.work[j].path == #[trigger] paths[m] by {
            if m < k - 1 {
                assert(paths[m] == ps[m]);
            } else {
                assert(s.work[i].path == paths[m]);
            }
        }
    }
}

/// A sweep covers every folder exactly once. An agent that asks for a folder and
/// reports it, as often as folders are pending, is handed each of them once and
/// nothing else; then every folder of the sweep is covered, the sweep is
/// complete, and asking again says so and changes nothing. Of a sweep that was all
/// pending and of which each folder was reported as done, all count as covered.
pub proof fn law_a_sweep_covers_every_folder_once(
    s: StoreView,
    task: Seq<char>,
    n: i64,
    agent: Option<Seq<char>>,
    ttl: i64,
    status: WorkStatus,
    now: i64,
)
    requires
        workable(s, task, n),
        status.terminal(),
        s.live(task, n, WorkStatus::Pending) > 0,
    ensures
        ({
            let (t, paths) = rounds(
                s,
                task,
                agent,
                ttl,
                status,
                now,
                s.live(task, n, WorkStatus::Pending),
            );
            &&& paths.no_duplicates()
            &&& forall|p: Seq<char>| #[trigger]
                paths.contains(p) <==> exists|i: int|
                    0 <= i < s.work.len() && (#[trigger] s.work[i]).belongs(task, n)
                        && s.work[i].status == WorkStatus::Pending && s.work[i].path == p
            &&& all_covered(t, task, n)
            &&& t.sweeps[t.latest(task)->0].status == SweepStatus::Complete
            &&& t.next_step(task, agent, ttl, false, now, Seq::empty()) == (
                t,
                NextView::SweepComplete {
                    task,
                    sweep: n,
                    covered: t.live(task, n, WorkStatus::Done) as int,
                    total: s.live_total(task, n) as int,
                    note: None,
                },
            )
            &&& t.live(task, n, WorkStatus::Done) == s.live(task, n, WorkStatus::Done) + if status
                == WorkStatus::Done {
                s.live(task, n, WorkStatus::Pending)
            } else {
                0
            }
            &&& status == WorkStatus::Done && s.live(task, n, WorkStatus::Pending) == s.live_total(
                task,
                n,
            ) ==> t.live(task, n, WorkStatus::Done) == s.live_total(task, n)
        }),
{
    let k = s.live(task, n, WorkStatus::Pending);
    let (t, paths) = rounds(s, task, agent, ttl, status, now, k);
    lemma_rounds(s, task, n, agent, ttl, status, now, k);
    let pending = state::of_status(task, n, WorkStatus::Pending);
    tally::lemma_count_zero(t.work, pending);
    tally::lemma_count_zero(s.work, pending);
    assert forall|p: Seq<char>| #[trigger] paths.contains(p) <==> exists|i: int|
        0 <= i < s.work.len() && (#[trigger] s.work[i]).belongs(task, n) && s.work[i].status
            == WorkStatus::Pending && s.work[i].path == p by {
        if paths.contains(p) {
            let m = choose|m: int| 0 <= m < paths.len() && paths[m] == p;
            assert(paths[m] == p);
        }
        if exists|i: int|
            0 <= i < s.work.len() && (#[trigger] s.work[i]).belongs(task, n) && s.work[i].status
                == WorkStatus::Pending && s.work[i].path == p {
            let i = choose|i: int|
                0 <= i < s.work.len() && (#[trigger] s.work[i]).belongs(task, n) && s.work[i].status
                    == WorkStatus::Pending && s.work[i].path == p;
            assert(!pending(t.work[i]));
        }
    }
    assert forall|i: int| 0 <= i < t.work.len() && (#[trigger] t.work[i]).belongs(
        task,
        n,
    ) implies t.work[i].status.terminal() by {
        assert(!pending(t.work[i]));
    }
    validity::lemma_latest(t, task);
    let q = t.latest(task)->0;
    assert(t.drift(t.sweeps[q], WorkStatus::Done) == 0);
    assert(t.drift_total(t.sweeps[q]) == 0);
    let p = choose|p: int| 0 <= p < s.work.len() && pending(#[trigger] s.work[p]);
    tally::lemma_count_zero(s.work, state::of_sweep(task, n));
    assert(state::of_sweep(task, n)(s.work[p]));
    laws::law_statuses_add_up(s, task, n);
    if status != WorkStatus::Done {
        let done = state::of_status(task, n, WorkStatus::Done);
        tally::lemma_count_same(s.work, done, t.work, done);
    }
}

/// While an agent works through a sweep, `next` counts the folders that are left
/// down to none: in round `m`, counted from zero, of as many as are pending, a
/// folder is handed out, and all the pending but those handed out remain.
pub proof fn law_remaining_counts_down(
    s: StoreView,
    task: Seq<char>,
    n: i64,
    agent: Option<Seq<char>>,
    ttl: i64,
    status: WorkStatus,
    now: i64,
    m: nat,
)
    requires
        workable(s, task, n),
        status.terminal(),
        m < s.live(task, n, WorkStatus::Pending),
    ensures
        rounds(s, task, agent, ttl, status, now, m).0.next_step(
            task,
            agent,
            ttl,
            false,
            now,
            Seq::empty(),
        ).1 matches NextView::Claimed { remaining, .. } && remaining == s.live(
            task,
            n,
            WorkStatus::Pending,
        ) - m - 1,
{
    lemma_rounds(s, task, n, agent, ttl, status, now, m);
    let i = lemma_round(
        rounds(s, task, agent, ttl, status, now, m).0,
        task,
        n,
        agent,
        ttl,
        status,
        now,
    );
}

/// A sweep that was just opened on a snapshot with folders, whose paths are in
/// stored form, is such a sweep: all of the snapshot is pending in it.
pub proof fn law_a_new_sweep_is_workable(
    s: StoreView,
    task: Seq<char>,
    now: i64,
    scores: Seq<Score>,
)
    requires
        s.wf(),
        s.ordered(),
        s.refusal(task) is None,
        s.has_room(task, now),
        forall|i: int|
            0 <= i < s.folders.len() ==> walk::stored_form(
                (#[trigger] s.folders[i]).stat.path,
            ) == s.folders[i].stat.path,
    ensures
        workable(s.opened(task, now, scores), task, s.next_number(task)),
        s.opened(task, now, scores).live(task, s.next_number(task), WorkStatus::Pending)
            == s.folders.len(),
{
    let t = s.opened(task, now, scores);
    let n = s.next_number(task);
    let w = s.work.len() as int;
    validity::lemma_opened(s, task, now, scores);
    laws::law_new_sweep_is_the_snapshot(s, task, now, scores);
    assert forall|i: int| 0 <= i < t.work.len() && (#[trigger] t.work[i]).belongs(
        task,
        n,
    ) implies t.work[i].status != WorkStatus::Leased && walk::stored_form(t.work[i].path)
        == t.work[i].path by {
        if i >= w {
            assert(t.work[w + (i - w)] == t.work[i]);
            assert(s.folders[i - w].stat.path == t.work[i].path);
        }
    }
}

// --- from sweep to sweep -------------------------------------------------------------------

/// Once a task's newest sweep is complete, `next` only reports it, and changes
/// nothing, until it is asked to go on by itself; then it opens the sweep with
/// the following number and, where there are folders, hands one of them out.
pub proof fn law_auto_sweep_opens_the_next(
    s: StoreView,
    task: Seq<char>,
    agent: Option<Seq<char>>,
    ttl: i64,
    now: i64,
    scores: Seq<Score>,
)
    requires
        s.wf(),
        s.refusal(task) is None,
        s.has_room(task, now),
        s.latest(task) matches Some(k) && s.sweeps[k].status == SweepStatus::Complete,
    ensures
        s.next_step(task, agent, ttl, false, now, scores) == (
            s,
            s.summary(task, s.sweeps[s.latest(task)->0].sweep),
        ),
        s.folders.len() > 0 ==> (s.next_step(task, agent, ttl, true, now, scores).1 matches NextView::Claimed {
            sweep,
            ..
        } && sweep == s.tasks[s.task_at(task)->0].current_sweep + 1),
        s.folders.len() == 0 ==> (s.next_step(
            task,
            agent,
            ttl,
            true,
            now,
            scores,
        ).1 matches NextView::SweepComplete { sweep, total, note, .. } && sweep == s.tasks[s.task_at(
            task,
        )->0].current_sweep + 1 && total == 0 && note is Some),
{
    validity::lemma_opened(s, task, now, scores);
    if s.folders.len() > 0 {
        validity::lemma_open_claims(s, task, agent, ttl, now, scores);
    } else {
        let o = s.opened(task, now, scores);
        let n = s.next_number(task);
        validity::lemma_closed(o, task, n, now);
        validity::lemma_sweep_at(o, task, n);
    }
}

}
