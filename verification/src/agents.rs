//! Several agents on one sweep, in any order: no folder is handed out twice, and
//! when nothing is left every folder was.

use vstd::prelude::*;
use crate::coverage;
use crate::laws;
use crate::model::{NextView, Score, SweepStatus, WorkStatus};
use crate::state;
use crate::state::{ClaimView, StoreView};
use crate::tally;
use crate::validity;

verus! {

/// Something that an agent, or the collector of expired leases, does.
pub enum Event {
    /// An agent claims a folder of the sweep.
    Claim { agent: Option<Seq<char>>, ttl: i64, now: i64 },
    /// An agent asks `next` for a folder, without going on to another sweep.
    Next { agent: Option<Seq<char>>, ttl: i64, now: i64 },
    /// An agent reports a path, which is in stored form.
    Complete {
        agent: Option<Seq<char>>,
        path: Seq<char>,
        status: WorkStatus,
        reason: Option<Seq<char>>,
        found: Option<i64>,
        now: i64,
    },
    /// Expired leases are collected.
    Gc { now: i64 },
}

impl Event {
    /// When it happens.
    pub open spec fn time(self) -> i64 {
        match self {
            Event::Claim { now, .. } => now,
            Event::Next { now, .. } => now,
            Event::Complete { now, .. } => now,
            Event::Gc { now } => now,
        }
    }
}

/// The state, and what was handed out so far: to whom, and which path.
pub struct Play {
    pub state: StoreView,
    pub handed: Seq<(Option<Seq<char>>, Seq<char>)>,
}

/// The paths that were handed out.
pub open spec fn paths(handed: Seq<(Option<Seq<char>>, Seq<char>)>) -> Seq<Seq<char>> {
    handed.map_values(|h: (Option<Seq<char>>, Seq<char>)| h.1)
}

/// What an event leads to.
pub open spec fn after(p: Play, task: Seq<char>, n: i64, e: Event) -> Play {
    match e {
        Event::Claim { agent, ttl, now } => {
            let (t, c) = p.state.claim(task, n, agent, ttl, now);
            match c {
                ClaimView::Leased { path, .. } => Play {
                    state: t,
                    handed: p.handed.push((agent, path)),
                },
                _ => Play { state: t, ..p },
            }
        },
        Event::Next { agent, ttl, now } => {
            let (t, v) = p.state.next_step(task, agent, ttl, false, now, Seq::empty());
            match v {
                NextView::Claimed { path, .. } => Play {
                    state: t,
                    handed: p.handed.push((agent, path)),
                },
                _ => Play { state: t, ..p },
            }
        },
        Event::Complete { agent, path, status, reason, found, now } => match p.state.complete(
            task,
            path,
            agent,
            status,
            reason,
            found,
            now,
        ) {
            Ok((t, _)) => Play { state: t, ..p },
            Err(_) => p,
        },
        Event::Gc { now } => Play { state: p.state.swept(now), ..p },
    }
}

/// What a sequence of events leads to from a state.
pub open spec fn play(s: StoreView, task: Seq<char>, n: i64, events: Seq<Event>) -> Play
    decreases events.len(),
{
    if events.len() == 0 {
        Play { state: s, handed: Seq::empty() }
    } else {
        after(play(s, task, n, events.drop_last()), task, n, events.last())
    }
}

/// No lease on a folder of the sweep has run out.
pub open spec fn unexpired(s: StoreView, task: Seq<char>, n: i64, now: i64) -> bool {
    forall|i: int|
        0 <= i < s.work.len() && (#[trigger] s.work[i]).belongs(task, n) ==> !s.work[i].expired(now)
}

/// At the time of an event no lease has run out, and an agent reports only what
/// it was handed.
pub open spec fn fair(p: Play, task: Seq<char>, n: i64, e: Event) -> bool {
    &&& unexpired(p.state, task, n, e.time())
    &&& e matches Event::Complete { agent, path, .. } ==> p.handed.contains((agent, path))
}

/// Every event of a sequence is fair where it happens.
pub open spec fn fair_play(s: StoreView, task: Seq<char>, n: i64, events: Seq<Event>) -> bool
    decreases events.len(),
{
    events.len() == 0 || {
        &&& fair_play(s, task, n, events.drop_last())
        &&& fair(play(s, task, n, events.drop_last()), task, n, events.last())
    }
}

/// Row `i` is about a folder of the sweep that was pending in the beginning.
pub open spec fn was_pending(s: StoreView, task: Seq<char>, n: i64, i: int) -> bool {
    0 <= i < s.work.len() && s.work[i].belongs(task, n) && s.work[i].status == WorkStatus::Pending
}

/// What is not covered of the task is in the sweep.
pub open spec fn alone(s: StoreView, task: Seq<char>, n: i64) -> bool {
    forall|i: int|
        0 <= i < s.work.len() && (#[trigger] s.work[i]).task == task
            && s.work[i].status.outstanding() ==> s.work[i].sweep == n
}

/// A folder that was handed out: it was pending in the beginning, is not any
/// more, and as long as it is leased it is so to the agent that it was handed to.
pub open spec fn accounted(
    s: StoreView,
    t: StoreView,
    task: Seq<char>,
    n: i64,
    h: (Option<Seq<char>>, Seq<char>),
    i: int,
) -> bool {
    &&& was_pending(s, task, n, i)
    &&& s.work[i].path == h.1
    &&& t.work[i].status != WorkStatus::Pending
    &&& t.work[i].status == WorkStatus::Leased ==> t.work[i].lease_owner == h.0
}

/// Some folder is the one that was handed out.
pub open spec fn traced(
    s: StoreView,
    t: StoreView,
    task: Seq<char>,
    n: i64,
    h: (Option<Seq<char>>, Seq<char>),
) -> bool {
    exists|i: int| accounted(s, t, task, n, h, i)
}

/// The folders that were not handed out are what they were, the others are
/// accounted for, and no path was handed out twice.
pub open spec fn in_hand(s: StoreView, p: Play, task: Seq<char>, n: i64) -> bool {
    &&& paths(p.handed).no_duplicates()
    &&& forall|i: int|
        #![trigger s.work[i]]
        #![trigger p.state.work[i]]
        0 <= i < s.work.len() && s.work[i].belongs(task, n) && !(was_pending(s, task, n, i)
            && paths(p.handed).contains(s.work[i].path)) ==> p.state.work[i] == s.work[i]
    &&& forall|m: int|
        0 <= m < p.handed.len() ==> traced(s, p.state, task, n, #[trigger] p.handed[m])
}

/// The state is valid, its rows are those of the beginning, the sweep's counters
/// are right, and the sweep is closed only if all of it is covered.
pub open spec fn orderly(s: StoreView, t: StoreView, task: Seq<char>, n: i64) -> bool {
    &&& t.wf()
    &&& validity::same_keys(s, t)
    &&& alone(t, task, n)
    &&& t.latest(task) == s.latest(task)
    &&& t.latest(task) matches Some(k) && t.sweeps[k].sweep == n && t.right(t.sweeps[k]) && (
    t.sweeps[k].status == SweepStatus::Complete ==> coverage::all_covered(t, task, n))
}

/// A state to start from: a valid one, with the sweep as the task's newest, right
/// counters for it, all of it covered if it is complete, and nothing outstanding in
/// the task's other sweeps.
pub open spec fn ready(s: StoreView, task: Seq<char>, n: i64) -> bool {
    &&& s.wf()
    &&& s.latest(task) matches Some(k) && s.sweeps[k].sweep == n && s.right(s.sweeps[k]) && (
    s.sweeps[k].status == SweepStatus::Complete ==> coverage::all_covered(s, task, n))
    &&& alone(s, task, n)
}

/// Two changes in place are one.
proof fn lemma_keys_chain(a: StoreView, b: StoreView, c: StoreView)
    requires
        validity::same_keys(a, b),
        validity::same_keys(b, c),
    ensures
        validity::same_keys(a, c),
{
    assert forall|i: int|
        #![trigger a.tasks[i]]
        #![trigger c.tasks[i]]
        0 <= i < a.tasks.len() implies a.tasks[i].name == c.tasks[i].name
        && a.tasks[i].current_sweep == c.tasks[i].current_sweep by {
        assert(b.tasks[i] == b.tasks[i]);
    }
    assert forall|i: int|
        #![trigger a.sweeps[i]]
        #![trigger c.sweeps[i]]
        0 <= i < a.sweeps.len() implies a.sweeps[i].task == c.sweeps[i].task && a.sweeps[i].sweep
        == c.sweeps[i].sweep && (c.sweeps[i].status == SweepStatus::Active ==> a.sweeps[i].status
        == SweepStatus::Active) by {
        assert(b.sweeps[i] == b.sweeps[i]);
    }
    assert forall|i: int|
        #![trigger a.work[i]]
        #![trigger c.work[i]]
        0 <= i < a.work.len() implies a.work[i].task == c.work[i].task && a.work[i].sweep
        == c.work[i].sweep && a.work[i].path == c.work[i].path by {
        assert(b.work[i] == b.work[i]);
    }
}

/// A truthful state is one to start from, with any task's newest sweep.
pub proof fn law_truthful_is_ready(s: StoreView, task: Seq<char>)
    requires
        s.wf(),
        coverage::truthful(s),
        s.latest(task) is Some,
    ensures
        ready(s, task, s.sweeps[s.latest(task)->0].sweep),
{
    let k = s.latest(task)->0;
    let n = s.sweeps[k].sweep;
    validity::lemma_latest(s, task);
    assert forall|i: int|
        0 <= i < s.work.len() && (#[trigger] s.work[i]).task == task
            && s.work[i].status.outstanding() implies s.work[i].sweep == n by {
        coverage::lemma_outstanding_in_newest(s, i);
    }
    assert(coverage::honest(s.sweeps[k]));
    coverage::lemma_all_covered(s, k);
}

/// In the beginning nothing is in anyone's hand.
proof fn lemma_beginning(s: StoreView, task: Seq<char>, n: i64)
    requires
        ready(s, task, n),
    ensures
        orderly(s, s, task, n),
        in_hand(s, Play { state: s, handed: Seq::empty() }, task, n),
{
    assert(paths(Seq::<(Option<Seq<char>>, Seq<char>)>::empty()) =~= Seq::<Seq<char>>::empty());
}

/// A claim that leases a folder hands out one that was not handed out before.
proof fn lemma_claim_in_hand(
    s: StoreView,
    p: Play,
    task: Seq<char>,
    n: i64,
    agent: Option<Seq<char>>,
    ttl: i64,
    now: i64,
)
    requires
        orderly(s, p.state, task, n),
        in_hand(s, p, task, n),
        unexpired(p.state, task, n, now),
    ensures
        orderly(s, p.state.claim(task, n, agent, ttl, now).0, task, n),
        in_hand(s, after(p, task, n, Event::Claim { agent, ttl, now }), task, n),
        p.state.claim(task, n, agent, ttl, now).1 !is Leased ==> p.state.claim(
            task,
            n,
            agent,
            ttl,
            now,
        ).0.work == p.state.work,
{
    let a = p.state;
    let (t, c) = a.claim(task, n, agent, ttl, now);
    let k = a.latest(task)->0;
    validity::lemma_latest(a, task);
    validity::lemma_claim(a, task, n, agent, ttl, now);
    validity::lemma_latest_kept(a, t, task);
    laws::lemma_stays_right(a, t, k);
    lemma_keys_chain(s, a, t);
    laws::law_claim_takes_one(a, task, n, agent, ttl, now);
    coverage::lemma_claim_counters(a, task, n, agent, ttl, now);
    assert forall|j: int| 0 <= j < a.work.len() implies #[trigger] laws::pooled(
        a.work[j],
        task,
        n,
        now,
    ) == a.work[j] by {}
    if let ClaimView::Leased { path, expires, .. } = c {
        let i = choose|i: int| #[trigger]
            laws::leases(a, t, task, n, agent, expires, now, i) && a.work[i].path == path;
        lemma_leased(s, p, t, task, n, agent, path, expires, i);
        lemma_alone_kept(a, t, task, n);
        if t.sweeps[k].status == SweepStatus::Complete {
            assert(a.work[i].belongs(task, n));
        }
    } else {
        assert(t.work =~= a.work) by {
            assert forall|j: int| 0 <= j < a.work.len() implies t.work[j] == a.work[j] by {
                assert(t.work[j] == laws::pooled(a.work[j], task, n, now));
            }
        }
        lemma_same_hands(s, p, t, task, n);
        lemma_alone_kept(a, t, task, n);
    }
}

/// As long as the folders of the sweep stay what they are, so does what is in
/// hand.
proof fn lemma_same_hands(s: StoreView, p: Play, t: StoreView, task: Seq<char>, n: i64)
    requires
        in_hand(s, p, task, n),
        t.work.len() == p.state.work.len(),
        forall|i: int|
            #![trigger t.work[i]]
            0 <= i < s.work.len() && s.work[i].belongs(task, n) ==> t.work[i] == p.state.work[i],
    ensures
        in_hand(s, Play { state: t, ..p }, task, n),
{
    let q = Play { state: t, ..p };
    assert forall|m: int| 0 <= m < q.handed.len() implies traced(
        s,
        t,
        task,
        n,
        #[trigger] q.handed[m],
    ) by {
        assert(traced(s, p.state, task, n, p.handed[m]));
        let i = choose|i: int| accounted(s, p.state, task, n, p.handed[m], i);
        assert(t.work[i] == p.state.work[i]);
        assert(accounted(s, t, task, n, q.handed[m], i));
    }
    assert forall|i: int|
        #![trigger s.work[i]]
        #![trigger t.work[i]]
        0 <= i < s.work.len() && s.work[i].belongs(task, n) && !(was_pending(s, task, n, i)
            && paths(q.handed).contains(s.work[i].path)) implies t.work[i] == s.work[i] by {
        assert(t.work[i] == p.state.work[i]);
    }
}

/// `next` of an agent is a claim on the sweep, or reports that it is complete.
proof fn lemma_next_in_hand(
    s: StoreView,
    p: Play,
    task: Seq<char>,
    n: i64,
    agent: Option<Seq<char>>,
    ttl: i64,
    now: i64,
)
    requires
        orderly(s, p.state, task, n),
        in_hand(s, p, task, n),
        unexpired(p.state, task, n, now),
    ensures
        orderly(s, after(p, task, n, Event::Next { agent, ttl, now }).state, task, n),
        in_hand(s, after(p, task, n, Event::Next { agent, ttl, now }), task, n),
        p.state.next_step(
            task,
            agent,
            ttl,
            false,
            now,
            Seq::empty(),
        ).1 is SweepComplete ==> coverage::all_covered(p.state, task, n)
            && p.state.next_step(task, agent, ttl, false, now, Seq::empty()).0.work
            == p.state.work,
{
    let a = p.state;
    let k = a.latest(task)->0;
    validity::lemma_latest(a, task);
    if a.sweeps[k].status == SweepStatus::Complete {
        lemma_same_hands(s, p, a, task, n);
    } else {
        let (t, c) = a.claim(task, n, agent, ttl, now);
        lemma_claim_in_hand(s, p, task, n, agent, ttl, now);
        if c is Empty {
            let u = t.closed(task, n, now);
            lemma_empty_covers(a, task, n, agent, ttl, now);
            validity::lemma_latest(t, task);
            validity::lemma_closed(t, task, n, now);
            validity::lemma_latest_kept(t, u, task);
            validity::lemma_sweep_at(t, task, n);
            laws::lemma_stays_right(t, u, k);
            lemma_keys_chain(s, t, u);
            lemma_same_hands(s, p, u, task, n);
            lemma_alone_kept(t, u, task, n);
        }
    }
}

/// A claim that finds the sweep drained means that all of it is covered.
proof fn lemma_empty_covers(
    a: StoreView,
    task: Seq<char>,
    n: i64,
    agent: Option<Seq<char>>,
    ttl: i64,
    now: i64,
)
    requires
        a.wf(),
        a.sweep_at(task, n) matches Some(k) && a.right(a.sweeps[k]),
        a.claim(task, n, agent, ttl, now).1 is Empty,
    ensures
        coverage::all_covered(a, task, n),
        a.sweeps[a.sweep_at(task, n)->0].pending == 0,
        a.sweeps[a.sweep_at(task, n)->0].leased == 0,
{
    let k = a.sweep_at(task, n)->0;
    validity::lemma_sweep_at(a, task, n);
    laws::lemma_drained_when(a, task, n, agent, ttl, now);
    coverage::lemma_all_covered(a, k);
    let free = state::free(task, n, now);
    let pending = state::of_status(task, n, WorkStatus::Pending);
    tally::lemma_count_zero(a.work, free);
    tally::lemma_count_zero(a.work, pending);
    assert forall|i: int| 0 <= i < a.work.len() implies !pending(#[trigger] a.work[i]) by {
        assert(!free(a.work[i]));
    }
    assert(a.drift(a.sweeps[k], WorkStatus::Pending) == 0);
}

/// Reporting what was handed out covers that folder, or does nothing more to it.
proof fn lemma_complete_in_hand(
    s: StoreView,
    p: Play,
    task: Seq<char>,
    n: i64,
    agent: Option<Seq<char>>,
    path: Seq<char>,
    status: WorkStatus,
    reason: Option<Seq<char>>,
    found: Option<i64>,
    now: i64,
)
    requires
        orderly(s, p.state, task, n),
        in_hand(s, p, task, n),
        p.handed.contains((agent, path)),
        p.state.complete(task, path, agent, status, reason, found, now) is Ok,
    ensures
        ({
            let t = p.state.complete(task, path, agent, status, reason, found, now)->Ok_0.0;
            orderly(s, t, task, n) && in_hand(s, Play { state: t, ..p }, task, n)
        }),
{
    let a = p.state;
    let t = a.complete(task, path, agent, status, reason, found, now)->Ok_0.0;
    let h = choose|h: int| 0 <= h < p.handed.len() && p.handed[h] == (agent, path);
    assert(traced(s, a, task, n, p.handed[h]));
    let i = choose|i: int| accounted(s, a, task, n, p.handed[h], i);
    let k = a.latest(task)->0;
    validity::lemma_latest(a, task);
    assert(a.work[i].belongs(task, n) && a.work[i].path == path);
    if a.work[i].status == WorkStatus::Leased {
        coverage::lemma_means_row(a, i, agent);
        coverage::lemma_completes_row(a, i, agent, status, reason, found, now);
        laws::lemma_stays_right(a, t, k);
        validity::lemma_latest_kept(a, t, task);
        lemma_keys_chain(s, a, t);
        lemma_alone_kept(a, t, task, n);
        lemma_covered_in_hand(s, p, t, task, n, i);
        coverage::lemma_all_covered(t, k);
        coverage::lemma_all_covered(a, k);
    } else {
        let j = coverage::lemma_completed(a, task, path, agent, status, reason, found, now);
        assert(a.work[j].status.terminal()) by {
            if a.work[j].status.outstanding() {
                lemma_one_row(a, i, j);
            }
        }
        let m = a.work[j].sweep;
        validity::lemma_placed(a, j);
        validity::lemma_closed(a, task, m, now);
        validity::lemma_drift_of_board(a, a);
        laws::lemma_stays_right(a, t, k);
        validity::lemma_latest_kept(a, t, task);
        lemma_keys_chain(s, a, t);
        lemma_alone_kept(a, t, task, n);
        lemma_same_hands(s, p, t, task, n);
        coverage::lemma_all_covered(t, k);
        coverage::lemma_all_covered(a, k);
    }
}

/// What is in hand once one of the folders was covered.
proof fn lemma_covered_in_hand(
    s: StoreView,
    p: Play,
    t: StoreView,
    task: Seq<char>,
    n: i64,
    i: int,
)
    requires
        in_hand(s, p, task, n),
        was_pending(s, task, n, i),
        paths(p.handed).contains(s.work[i].path),
        s.work.len() == p.state.work.len(),
        t.work.len() == s.work.len(),
        t.work[i].status.terminal(),
        forall|j: int| 0 <= j < s.work.len() && j != i ==> #[trigger] t.work[j] == p.state.work[j],
    ensures
        in_hand(s, Play { state: t, ..p }, task, n),
{
    let q = Play { state: t, ..p };
    assert forall|m: int| 0 <= m < q.handed.len() implies traced(
        s,
        t,
        task,
        n,
        #[trigger] q.handed[m],
    ) by {
        assert(traced(s, p.state, task, n, p.handed[m]));
        let j = choose|j: int| accounted(s, p.state, task, n, p.handed[m], j);
        if j != i {
            assert(t.work[j] == p.state.work[j]);
        }
        assert(accounted(s, t, task, n, q.handed[m], j));
    }
    assert forall|j: int|
        #![trigger s.work[j]]
        #![trigger t.work[j]]
        0 <= j < s.work.len() && s.work[j].belongs(task, n) && !(was_pending(s, task, n, j)
            && paths(q.handed).contains(s.work[j].path)) implies t.work[j] == s.work[j] by {
        assert(j != i);
        assert(t.work[j] == p.state.work[j]);
    }
}

/// Collecting expired leases takes nothing out of anyone's hand.
proof fn lemma_gc_in_hand(s: StoreView, p: Play, task: Seq<char>, n: i64, now: i64)
    requires
        orderly(s, p.state, task, n),
        in_hand(s, p, task, n),
        unexpired(p.state, task, n, now),
    ensures
        orderly(s, p.state.swept(now), task, n),
        in_hand(s, Play { state: p.state.swept(now), ..p }, task, n),
{
    let a = p.state;
    let t = a.swept(now);
    let k = a.latest(task)->0;
    validity::lemma_latest(a, task);
    validity::lemma_swept(a, now);
    validity::lemma_latest_kept(a, t, task);
    laws::lemma_stays_right(a, t, k);
    lemma_keys_chain(s, a, t);
    assert forall|i: int| 0 <= i < s.work.len() && s.work[i].belongs(
        task,
        n,
    ) implies #[trigger] t.work[i] == a.work[i] by {
        assert(a.work[i].belongs(task, n));
    }
    lemma_same_hands(s, p, t, task, n);
    lemma_alone_kept(a, t, task, n);
    coverage::lemma_all_covered(a, k);
    coverage::lemma_all_covered(t, k);
    tally::lemma_count_zero(a.work, state::due(task, n, now));
}

/// Whatever agents do in whatever order, the state stays orderly and everything
/// that was handed out is accounted for.
proof fn lemma_play(s: StoreView, task: Seq<char>, n: i64, events: Seq<Event>)
    requires
        ready(s, task, n),
        fair_play(s, task, n, events),
    ensures
        orderly(s, play(s, task, n, events).state, task, n),
        in_hand(s, play(s, task, n, events), task, n),
    decreases events.len(),
{
    if events.len() == 0 {
        lemma_beginning(s, task, n);
    } else {
        let p = play(s, task, n, events.drop_last());
        lemma_play(s, task, n, events.drop_last());
        match events.last() {
            Event::Claim { agent, ttl, now } => {
                lemma_claim_in_hand(s, p, task, n, agent, ttl, now);
            },
            Event::Next { agent, ttl, now } => {
                lemma_next_in_hand(s, p, task, n, agent, ttl, now);
            },
            Event::Complete { agent, path, status, reason, found, now } => {
                if p.state.complete(task, path, agent, status, reason, found, now) is Ok {
                    lemma_complete_in_hand(
                        s,
                        p,
                        task,
                        n,
                        agent,
                        path,
                        status,
                        reason,
                        found,
                        now,
                    );
                }
            },
            Event::Gc { now } => {
                lemma_gc_in_hand(s, p, task, n, now);
            },
        }
    }
}

/// Parallel agents never collide. However many of them claim, report and collect
/// on a sweep, in whatever order, as long as no lease runs out and each reports
/// only what it was handed: no path is handed out twice, and each that is was
/// pending in the sweep.
pub proof fn law_parallel_agents_never_collide(
    s: StoreView,
    task: Seq<char>,
    n: i64,
    events: Seq<Event>,
)
    requires
        ready(s, task, n),
        fair_play(s, task, n, events),
    ensures
        paths(play(s, task, n, events).handed).no_duplicates(),
        forall|m: int|
            0 <= m < play(s, task, n, events).handed.len() ==> pending_path(
                s,
                task,
                n,
                (#[trigger] play(s, task, n, events).handed[m]).1,
            ),
{
    let p = play(s, task, n, events);
    lemma_play(s, task, n, events);
    assert forall|m: int| 0 <= m < p.handed.len() implies pending_path(
        s,
        task,
        n,
        (#[trigger] p.handed[m]).1,
    ) by {
        assert(traced(s, p.state, task, n, p.handed[m]));
        let i = choose|i: int| accounted(s, p.state, task, n, p.handed[m], i);
        assert(was_pending(s, task, n, i));
    }
}

/// A path of a folder that is pending in the sweep.
pub open spec fn pending_path(s: StoreView, task: Seq<char>, n: i64, path: Seq<char>) -> bool {
    exists|i: int| #[trigger] was_pending(s, task, n, i) && s.work[i].path == path
}

/// What holds once nothing of the sweep is left: the paths that were handed out
/// are exactly the ones that were pending in the beginning, every folder is
/// covered, and those done and those skipped are all there are.
pub open spec fn all_done(s: StoreView, p: Play, task: Seq<char>, n: i64) -> bool {
    &&& forall|path: Seq<char>| #[trigger]
        paths(p.handed).contains(path) <==> pending_path(s, task, n, path)
    &&& coverage::all_covered(p.state, task, n)
    &&& p.state.sweep_at(task, n) matches Some(k) && {
        let r = p.state.sweeps[k];
        &&& r.done + r.skipped == r.total
        &&& r.total == s.live_total(task, n)
        &&& r.done == p.state.live(task, n, WorkStatus::Done)
        &&& r.skipped == p.state.live(task, n, WorkStatus::Skipped)
    }
}

/// Parallel agents cover every folder exactly once. Once a claim finds the sweep
/// drained, or `next` reports it complete, all is done: every folder that was
/// pending was handed out once, and is covered.
pub proof fn law_parallel_agents_cover_every_folder_once(
    s: StoreView,
    task: Seq<char>,
    n: i64,
    events: Seq<Event>,
    agent: Option<Seq<char>>,
    ttl: i64,
    now: i64,
)
    requires
        ready(s, task, n),
        fair_play(s, task, n, events),
    ensures
        paths(play(s, task, n, events).handed).no_duplicates(),
        ({
            let p = play(s, task, n, events);
            p.state.claim(task, n, agent, ttl, now).1 is Empty || p.state.next_step(
                task,
                agent,
                ttl,
                false,
                now,
                Seq::empty(),
            ).1 is SweepComplete ==> all_done(s, p, task, n)
        }),
{
    let p = play(s, task, n, events);
    let a = p.state;
    let k = a.latest(task)->0;
    lemma_play(s, task, n, events);
    validity::lemma_latest(a, task);
    if a.claim(task, n, agent, ttl, now).1 is Empty || a.next_step(
        task,
        agent,
        ttl,
        false,
        now,
        Seq::empty(),
    ).1 is SweepComplete {
        if a.claim(task, n, agent, ttl, now).1 is Empty {
            lemma_empty_covers(a, task, n, agent, ttl, now);
        }
        assert(coverage::all_covered(a, task, n));
        lemma_all_done(s, p, task, n);
    }
}

/// A path of the folder snapshot.
pub open spec fn in_snapshot(s: StoreView, path: Seq<char>) -> bool {
    exists|i: int| 0 <= i < s.folders.len() && (#[trigger] s.folders[i]).stat.path == path
}

/// Every folder of a task's sweeps is covered.
pub open spec fn nothing_left(s: StoreView, task: Seq<char>) -> bool {
    forall|i: int|
        0 <= i < s.work.len() && (#[trigger] s.work[i]).task == task ==> s.work[i].status.terminal()
}

/// In a truthful state in which a sweep can be opened nothing is left of the others.
pub proof fn law_truthful_leaves_nothing(s: StoreView, task: Seq<char>)
    requires
        s.wf(),
        coverage::truthful(s),
        s.refusal(task) is None,
    ensures
        nothing_left(s, task),
{
    laws::law_open_only_when_none_is_active(s, task);
    assert forall|i: int| 0 <= i < s.work.len() && (#[trigger] s.work[i]).task
        == task implies s.work[i].status.terminal() by {
        if s.work[i].status.outstanding() {
            coverage::lemma_outstanding_in_newest(s, i);
            validity::lemma_latest(s, task);
            let k = s.latest(task)->0;
            assert(s.sweeps[k].task == task);
        }
    }
}

/// A sweep that was just opened where nothing is left of the others is one to start
/// from.
proof fn lemma_opened_is_ready(s: StoreView, task: Seq<char>, now: i64, scores: Seq<Score>)
    requires
        s.wf(),
        s.ordered(),
        s.refusal(task) is None,
        s.has_room(task, now),
        nothing_left(s, task),
    ensures
        ready(s.opened(task, now, scores), task, s.next_number(task)),
{
    let o = s.opened(task, now, scores);
    let n = s.next_number(task);
    validity::lemma_opened(s, task, now, scores);
    assert forall|i: int|
        0 <= i < o.work.len() && (#[trigger] o.work[i]).task == task
            && o.work[i].status.outstanding() implies o.work[i].sweep == n by {
        if i < s.work.len() {
            assert(o.work[i] == s.work[i]);
        } else {
            assert(o.work[i] == s.board(task, scores)[i - s.work.len()]);
        }
    }
}

/// Of a sweep that was just opened, parallel agents are handed exactly the folders
/// of the snapshot, each once; when nothing is left, as many are done or skipped
/// as the snapshot has.
pub proof fn law_parallel_agents_cover_a_new_sweep(
    s: StoreView,
    task: Seq<char>,
    opened_at: i64,
    scores: Seq<Score>,
    events: Seq<Event>,
    agent: Option<Seq<char>>,
    ttl: i64,
    now: i64,
)
    requires
        s.wf(),
        s.ordered(),
        s.refusal(task) is None,
        s.has_room(task, opened_at),
        nothing_left(s, task),
        fair_play(s.opened(task, opened_at, scores), task, s.next_number(task), events),
    ensures
        ({
            let n = s.next_number(task);
            let p = play(s.opened(task, opened_at, scores), task, n, events);
            &&& paths(p.handed).no_duplicates()
            &&& p.state.claim(task, n, agent, ttl, now).1 is Empty || p.state.next_step(
                task,
                agent,
                ttl,
                false,
                now,
                Seq::empty(),
            ).1 is SweepComplete ==> {
                &&& forall|path: Seq<char>| #[trigger]
                    paths(p.handed).contains(path) <==> in_snapshot(s, path)
                &&& coverage::all_covered(p.state, task, n)
                &&& p.state.live(task, n, WorkStatus::Done) + p.state.live(
                    task,
                    n,
                    WorkStatus::Skipped,
                ) == s.folders.len()
            }
        }),
{
    let n = s.next_number(task);
    let o = s.opened(task, opened_at, scores);
    let w = s.work.len() as int;
    validity::lemma_opened(s, task, opened_at, scores);
    lemma_opened_is_ready(s, task, opened_at, scores);
    laws::law_new_sweep_is_the_snapshot(s, task, opened_at, scores);
    law_parallel_agents_cover_every_folder_once(o, task, n, events, agent, ttl, now);
    assert forall|path: Seq<char>| #[trigger] pending_path(o, task, n, path) <==> in_snapshot(
        s,
        path,
    ) by {
        if pending_path(o, task, n, path) {
            let i = choose|i: int| #[trigger] was_pending(o, task, n, i) && o.work[i].path == path;
            assert(i >= w);
            assert(o.work[w + (i - w)].path == s.folders[i - w].stat.path);
        }
        if in_snapshot(s, path) {
            let i = choose|i: int|
                0 <= i < s.folders.len() && (#[trigger] s.folders[i]).stat.path == path;
            assert(o.work[w + i].belongs(task, n));
            assert(was_pending(o, task, n, w + i));
        }
    }
}

proof fn lemma_all_done(s: StoreView, p: Play, task: Seq<char>, n: i64)
    requires
        orderly(s, p.state, task, n),
        in_hand(s, p, task, n),
        coverage::all_covered(p.state, task, n),
    ensures
        all_done(s, p, task, n),
{
    let a = p.state;
    let k = a.latest(task)->0;
    validity::lemma_latest(a, task);
    coverage::lemma_all_covered(a, k);
    laws::law_counters_add_up(a, k);
    assert(a.drift_total(a.sweeps[k]) == 0);
    assert(a.drift(a.sweeps[k], WorkStatus::Done) == 0);
    assert(a.drift(a.sweeps[k], WorkStatus::Skipped) == 0);
    tally::lemma_count_same(
        s.work,
        state::of_sweep(task, n),
        a.work,
        state::of_sweep(task, n),
    );
    let handed = paths(p.handed);
    assert forall|path: Seq<char>| #[trigger] handed.contains(path) <==> pending_path(
        s,
        task,
        n,
        path,
    ) by {
        if handed.contains(path) {
            let m = choose|m: int| 0 <= m < handed.len() && handed[m] == path;
            assert(traced(s, a, task, n, p.handed[m]));
            let i = choose|i: int| accounted(s, a, task, n, p.handed[m], i);
            assert(was_pending(s, task, n, i));
        }
        if pending_path(s, task, n, path) {
            let i = choose|i: int| #[trigger] was_pending(s, task, n, i) && s.work[i].path == path;
            assert(a.work[i].belongs(task, n));
            if !handed.contains(path) {
                assert(a.work[i] == s.work[i]);
            }
        }
    }
}

/// Where nothing of another sweep becomes outstanding, what is outstanding stays
/// in the sweep.
proof fn lemma_alone_kept(a: StoreView, t: StoreView, task: Seq<char>, n: i64)
    requires
        alone(a, task, n),
        validity::same_keys(a, t),
        forall|i: int|
            0 <= i < a.work.len() && !a.work[i].belongs(task, n) && (
            #[trigger] t.work[i]).status.outstanding() ==> a.work[i].status.outstanding(),
    ensures
        alone(t, task, n),
{
    assert forall|i: int|
        0 <= i < t.work.len() && (#[trigger] t.work[i]).task == task
            && t.work[i].status.outstanding() implies t.work[i].sweep == n by {
        assert(a.work[i].task == task && a.work[i].sweep == t.work[i].sweep);
    }
}

/// One more folder in hand.
proof fn lemma_leased(
    s: StoreView,
    p: Play,
    t: StoreView,
    task: Seq<char>,
    n: i64,
    agent: Option<Seq<char>>,
    path: Seq<char>,
    expires: i64,
    i: int,
)
    requires
        orderly(s, p.state, task, n),
        in_hand(s, p, task, n),
        0 <= i < s.work.len(),
        t.work.len() == p.state.work.len(),
        p.state.work[i].belongs(task, n),
        p.state.work[i].path == path,
        p.state.work[i].status == WorkStatus::Pending,
        t.work[i] == p.state.work[i].lent(agent, expires),
        forall|j: int|
            0 <= j < t.work.len() && j != i ==> #[trigger] t.work[j] == p.state.work[j],
    ensures
        in_hand(s, Play { state: t, handed: p.handed.push((agent, path)) }, task, n),
{
    let a = p.state;
    let q = Play { state: t, handed: p.handed.push((agent, path)) };
    let was = paths(p.handed);
    let is = paths(q.handed);
    assert(is =~= was.push(path));
    assert(s.work[i].path == path && s.work[i].belongs(task, n));
    assert(!was.contains(path)) by {
        if was.contains(path) {
            let m = choose|m: int| 0 <= m < was.len() && was[m] == path;
            assert(traced(s, a, task, n, p.handed[m]));
            let j = choose|j: int| accounted(s, a, task, n, p.handed[m], j);
            assert(s.work[j].path == path);
            lemma_one_row(a, i, j);
        }
    }
    assert(was_pending(s, task, n, i)) by {
        assert(a.work[i] == s.work[i]);
    }
    assert(is.no_duplicates());
    assert forall|x: Seq<char>| #[trigger] is.contains(x) <==> was.contains(x) || x == path by {
        if was.contains(x) {
            let m = choose|m: int| 0 <= m < was.len() && was[m] == x;
            assert(is[m] == x);
        }
        if x == path {
            assert(is[was.len() as int] == x);
        }
    }
    assert forall|j: int|
        #![trigger s.work[j]]
        #![trigger t.work[j]]
        0 <= j < s.work.len() && s.work[j].belongs(task, n) && !(was_pending(s, task, n, j)
            && is.contains(s.work[j].path)) implies t.work[j] == s.work[j] by {
        if j != i {
            assert(t.work[j] == a.work[j]);
        } else {
            assert(is.contains(path));
        }
    }
    assert forall|m: int| 0 <= m < q.handed.len() implies traced(
        s,
        t,
        task,
        n,
        #[trigger] q.handed[m],
    ) by {
        if m < p.handed.len() {
            assert(traced(s, a, task, n, p.handed[m]));
            let j = choose|j: int| accounted(s, a, task, n, p.handed[m], j);
            assert(t.work[j] == a.work[j]);
            assert(accounted(s, t, task, n, q.handed[m], j));
        } else {
            assert(accounted(s, t, task, n, q.handed[m], i));
        }
    }
}

/// A sweep has one row for a path.
proof fn lemma_one_row(s: StoreView, i: int, j: int)
    requires
        s.keyed(),
        0 <= i < s.work.len(),
        0 <= j < s.work.len(),
        s.work[i].task == s.work[j].task,
        s.work[i].sweep == s.work[j].sweep,
        s.work[i].path == s.work[j].path,
    ensures
        i == j,
{
    if i < j {
        assert(s.work[i].path != s.work[j].path);
    } else if j < i {
        assert(s.work[j].path != s.work[i].path);
    }
}

}
