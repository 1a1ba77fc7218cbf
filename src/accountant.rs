use vstd::prelude::*;
use crate::monitor::ProcessMonitor;
use crate::registry::{
    distinct, lemma_position_of, paths_of, position_of, saturating_sum, with_playtime,
    AppRegistry, EntryView,
};
use crate::tracker::{
    lemma_survivors_within, session_paths, survivors, LaunchTracker, SessionView,
};

verus! {

broadcast use vstd::seq_lib::group_to_multiset_ensures;

/// Whether some session for `path` is flagged alive.
pub open spec fn alive_at(s: Seq<SessionView>, alive: Seq<bool>, path: Seq<char>) -> bool {
    exists|i: int| 0 <= i < s.len() && s[i].0 == path && alive[i]
}

/// Entries after a tick of `elapsed` milliseconds: each entry with a live
/// session gains `elapsed` of playtime, the others are unchanged.
pub open spec fn credited(
    entries: Seq<EntryView>,
    s: Seq<SessionView>,
    alive: Seq<bool>,
    elapsed: u64,
) -> Seq<EntryView> {
    entries.map_values(
        |e: EntryView|
            if alive_at(s, alive, e.0) {
                (e.0, e.1, saturating_sum(e.2, elapsed))
            } else {
                e
            },
    )
}

/// For each session, whether its process is in `live`.
pub open spec fn liveness(s: Seq<SessionView>, live: Set<u32>) -> Seq<bool> {
    s.map_values(|x: SessionView| live.contains(x.1))
}

proof fn lemma_alive_at_step(s: Seq<SessionView>, a: Seq<bool>, i: int, p: Seq<char>)
    requires
        0 <= i < s.len(),
        a.len() == s.len(),
    ensures
        alive_at(s.take(i + 1), a.take(i + 1), p) == (alive_at(s.take(i), a.take(i), p) || (
        s[i].0 == p && a[i])),
{
    let s1 = s.take(i + 1);
    let a1 = a.take(i + 1);
    let s0 = s.take(i);
    let a0 = a.take(i);
    if alive_at(s1, a1, p) {
        let k = choose|k: int| 0 <= k < s1.len() && #[trigger] s1[k].0 == p && a1[k];
        if k < i {
            assert(s0[k] == s[k] && a0[k] == a[k]);
        }
    }
    if alive_at(s0, a0, p) {
        let k = choose|k: int| 0 <= k < s0.len() && #[trigger] s0[k].0 == p && a0[k];
        assert(s1[k] == s[k] && a1[k] == a[k]);
    }
    if s[i].0 == p && a[i] {
        assert(s.take(i + 1)[i] == s[i] && a.take(i + 1)[i] == a[i]);
    }
}

proof fn lemma_credit_step(
    e0: Seq<EntryView>,
    s: Seq<SessionView>,
    a: Seq<bool>,
    d: u64,
    i: int,
)
    requires
        0 <= i < s.len(),
        a.len() == s.len(),
        distinct(paths_of(e0)),
        distinct(session_paths(s)),
    ensures
        a[i] ==> with_playtime(credited(e0, s.take(i), a.take(i), d), s[i].0, d) == credited(
            e0,
            s.take(i + 1),
            a.take(i + 1),
            d,
        ),
        !a[i] ==> credited(e0, s.take(i), a.take(i), d) == credited(e0, s.take(i + 1), a.take(i + 1), d),
{
    let c = credited(e0, s.take(i), a.take(i), d);
    let c1 = credited(e0, s.take(i + 1), a.take(i + 1), d);
    let p = s[i].0;
    assert forall|j: int| 0 <= j < e0.len() implies alive_at(s.take(i + 1), a.take(i + 1), e0[j].0)
        == (alive_at(s.take(i), a.take(i), e0[j].0) || (p == e0[j].0 && a[i])) by {
        lemma_alive_at_step(s, a, i, e0[j].0);
    }
    assert(!alive_at(s.take(i), a.take(i), p)) by {
        let s0 = s.take(i);
        let a0 = a.take(i);
        if alive_at(s0, a0, p) {
            let k = choose|k: int| 0 <= k < s0.len() && #[trigger] s0[k].0 == p && a0[k];
            assert(session_paths(s)[k] == session_paths(s)[i]);
        }
    }
    if !a[i] {
        assert(c =~= c1);
    } else {
        assert(paths_of(c) =~= paths_of(e0));
        let ps = paths_of(e0);
        lemma_position_of(ps, p);
        let j = position_of(ps, p);
        if j >= 0 {
            assert(with_playtime(c, p, d) =~= c1) by {
                assert forall|k: int| 0 <= k < e0.len() implies with_playtime(c, p, d)[k] == c1[k] by {
                    if k != j {
                        assert(ps[k] != p);
                    }
                }
            }
        } else {
            assert(c =~= c1) by {
                assert forall|k: int| 0 <= k < e0.len() implies c[k] == c1[k] by {
                    assert(ps[k] != p) by {
                        if ps[k] == p {
                            assert(ps.contains(p));
                        }
                    }
                }
            }
        }
    }
}

/// Settles a tick whose liveness checks are given: `alive` holds, for each
/// session in order, whether its process is alive. First every session with
/// a live process adds `elapsed_ms` to its entry's playtime; then the
/// sessions of dead processes are ended.
pub fn settle_tick(
    registry: &mut AppRegistry,
    tracker: &mut LaunchTracker,
    alive: &Vec<bool>,
    elapsed_ms: u64,
)
    requires
        old(registry).wf(),
        old(tracker).wf(),
        alive.len() == old(tracker)@.len(),
    ensures
        final(registry).wf(),
        final(tracker).wf(),
        final(registry)@ == credited(old(registry)@, old(tracker)@, alive@, elapsed_ms),
        final(tracker)@ == survivors(old(tracker)@, alive@),
{
    let ghost e0 = registry@;
    let ghost s = tracker@;
    let n = tracker.sessions().len();
    let mut i: usize = 0;
    assert(credited(e0, s.take(0), alive@.take(0), elapsed_ms) =~= e0);
    while i < n
        invariant
            i <= n,
            n == s.len(),
            alive.len() == n,
            tracker@ == s,
            tracker.wf(),
            registry.wf(),
            distinct(paths_of(e0)),
            registry@ == credited(e0, s.take(i as int), alive@.take(i as int), elapsed_ms),
        decreases n - i,
    {
        proof {
            lemma_credit_step(e0, s, alive@, elapsed_ms, i as int);
        }
        if alive[i] {
            let sessions = tracker.sessions();
            assert(sessions@[i as int]@ == s[i as int]);
            registry.add_playtime(&sessions[i].path, elapsed_ms);
        }
        i = i + 1;
    }
    assert(s.take(n as int) =~= s);
    assert(alive@.take(n as int) =~= alive@);
    tracker.retain_flagged(alive);
}

/// One tick of `elapsed_ms` milliseconds: takes one fresh snapshot of the
/// process table, credits the entries of sessions whose process is in it,
/// and ends the sessions whose process is not.
pub fn tick(
    monitor: &mut ProcessMonitor,
    registry: &mut AppRegistry,
    tracker: &mut LaunchTracker,
    elapsed_ms: u64,
)
    requires
        old(registry).wf(),
        old(tracker).wf(),
    ensures
        final(registry).wf(),
        final(tracker).wf(),
        final(monitor).snapshot_count() == saturating_sum(old(monitor).snapshot_count(), 1),
        final(registry)@ == credited(
            old(registry)@,
            old(tracker)@,
            liveness(old(tracker)@, final(monitor).live()),
            elapsed_ms,
        ),
        final(tracker)@ == survivors(old(tracker)@, liveness(old(tracker)@, final(monitor).live())),
{
    monitor.refresh();
    let ghost s = tracker@;
    let n = tracker.sessions().len();
    let mut alive: Vec<bool> = Vec::new();
    let mut i: usize = 0;
    while i < n
        invariant
            i <= n,
            n == s.len(),
            tracker@ == s,
            monitor.snapshot_count() == saturating_sum(old(monitor).snapshot_count(), 1),
            alive@ == liveness(s, monitor.live()).take(i as int),
        decreases n - i,
    {
        let sessions = tracker.sessions();
        assert(sessions@[i as int]@ == s[i as int]);
        let up = monitor.is_alive(sessions[i].pid);
        alive.push(up);
        assert(alive@ =~= liveness(s, monitor.live()).take(i + 1));
        i = i + 1;
    }
    assert(alive@ =~= liveness(s, monitor.live()));
    settle_tick(registry, tracker, &alive, elapsed_ms);
}

/// The order in which a tick visits the sessions does not matter: two
/// orderings of the same sessions, against the same snapshot, credit the
/// same playtimes and keep the same running sessions.
pub proof fn lemma_tick_order_independent(
    entries: Seq<EntryView>,
    s1: Seq<SessionView>,
    s2: Seq<SessionView>,
    live: Set<u32>,
    elapsed: u64,
)
    requires
        s1.to_multiset() == s2.to_multiset(),
    ensures
        credited(entries, s1, liveness(s1, live), elapsed) == credited(
            entries,
            s2,
            liveness(s2, live),
            elapsed,
        ),
        survivors(s1, liveness(s1, live)).to_set() == survivors(s2, liveness(s2, live)).to_set(),
{
    assert forall|x: SessionView| s1.contains(x) <==> s2.contains(x) by {
        assert(s1.contains(x) <==> s1.to_multiset().count(x) > 0);
        assert(s2.contains(x) <==> s2.to_multiset().count(x) > 0);
    }
    assert forall|p: Seq<char>|
        alive_at(s1, liveness(s1, live), p) <==> alive_at(s2, liveness(s2, live), p) by {
        if alive_at(s1, liveness(s1, live), p) {
            let k = choose|k: int| 0 <= k < s1.len() && s1[k].0 == p && liveness(s1, live)[k];
            assert(s1.contains(s1[k]));
            let m = choose|m: int| 0 <= m < s2.len() && s2[m] == s1[k];
            assert(liveness(s2, live)[m]);
        }
        if alive_at(s2, liveness(s2, live), p) {
            let k = choose|k: int| 0 <= k < s2.len() && s2[k].0 == p && liveness(s2, live)[k];
            assert(s2.contains(s2[k]));
            let m = choose|m: int| 0 <= m < s1.len() && s1[m] == s2[k];
            assert(liveness(s1, live)[m]);
        }
    }
    assert(credited(entries, s1, liveness(s1, live), elapsed) =~= credited(
        entries,
        s2,
        liveness(s2, live),
        elapsed,
    ));
    lemma_survivors_within(s1, liveness(s1, live));
    lemma_survivors_within(s2, liveness(s2, live));
    let t1 = survivors(s1, liveness(s1, live));
    let t2 = survivors(s2, liveness(s2, live));
    assert forall|x: SessionView| t1.contains(x) implies t2.contains(x) by {
        let k = choose|k: int| 0 <= k < s1.len() && s1[k] == x && liveness(s1, live)[k];
        assert(s1.contains(x));
        let m = choose|m: int| 0 <= m < s2.len() && s2[m] == x;
        assert(liveness(s2, live)[m]);
    }
    assert forall|x: SessionView| t2.contains(x) implies t1.contains(x) by {
        let k = choose|k: int| 0 <= k < s2.len() && s2[k] == x && liveness(s2, live)[k];
        assert(s2.contains(x));
        let m = choose|m: int| 0 <= m < s1.len() && s1[m] == x;
        assert(liveness(s1, live)[m]);
    }
    assert(t1.to_set() =~= t2.to_set());
}

} // verus!
