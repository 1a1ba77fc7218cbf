use vstd::prelude::*;
use crate::registry::{
    distinct, find_path, lemma_drop_last_distinct, lemma_position_of, lemma_push_distinct,
    lemma_remove_distinct, paths_in, position_of, HasPath,
};

verus! {

impl HasPath for RunningSession {
    open spec fn path_view(&self) -> Seq<char> {
        self.path@
    }

    fn path_ref(&self) -> (r: &String) {
        &self.path
    }
}

/// Path of the launched application and the id of its process.
pub type SessionView = (Seq<char>, u32);

/// A launched application whose process is being tracked.
pub struct RunningSession {
    pub path: String,
    pub pid: u32,
}

impl View for RunningSession {
    type V = SessionView;

    open spec fn view(&self) -> SessionView {
        (self.path@, self.pid)
    }
}

#[derive(Debug)]
pub enum LaunchError {
    LaunchFailed(String),
}

pub open spec fn sessions_view(v: Seq<RunningSession>) -> Seq<SessionView> {
    v.map_values(|x: RunningSession| x@)
}

pub open spec fn session_paths(s: Seq<SessionView>) -> Seq<Seq<char>> {
    s.map_values(|x: SessionView| x.0)
}

/// Sessions after a process `pid` was started for `path`: it replaces any
/// session already held for that path.
pub open spec fn started(s: Seq<SessionView>, path: Seq<char>, pid: u32) -> Seq<SessionView> {
    let i = position_of(session_paths(s), path);
    if i >= 0 {
        s.update(i, (path, pid))
    } else {
        s.push((path, pid))
    }
}

/// Sessions after the one for `path`, if any, has ended.
pub open spec fn ended(s: Seq<SessionView>, path: Seq<char>) -> Seq<SessionView> {
    let i = position_of(session_paths(s), path);
    if i >= 0 {
        s.remove(i)
    } else {
        s
    }
}

/// The sessions whose flag in `keep` is set, in their order.
pub open spec fn survivors(s: Seq<SessionView>, keep: Seq<bool>) -> Seq<SessionView>
    decreases s.len(),
{
    if s.len() == 0 {
        s
    } else {
        let r = survivors(s.drop_last(), keep.take(s.len() - 1));
        if keep[s.len() - 1] {
            r.push(s.last())
        } else {
            r
        }
    }
}

pub proof fn lemma_survivors_within(s: Seq<SessionView>, keep: Seq<bool>)
    requires
        keep.len() == s.len(),
    ensures
        forall|x: SessionView|
            survivors(s, keep).contains(x) ==> exists|i: int|
                0 <= i < s.len() && s[i] == x && keep[i],
        forall|x: SessionView|
            s.contains(x) ==> (survivors(s, keep).contains(x) <== exists|i: int|
                0 <= i < s.len() && s[i] == x && keep[i]),
        distinct(session_paths(s)) ==> distinct(session_paths(survivors(s, keep))),
    decreases s.len(),
{
    if s.len() > 0 {
        let q = s.drop_last();
        let kq = keep.take(s.len() - 1);
        let r = survivors(q, kq);
        lemma_survivors_within(q, kq);
        assert forall|x: SessionView| survivors(s, keep).contains(x) implies exists|i: int|
            0 <= i < s.len() && s[i] == x && keep[i] by {
            if r.contains(x) {
                let m = choose|m: int| 0 <= m < q.len() && q[m] == x && kq[m];
                assert(s[m] == x && keep[m]);
            } else {
                let t = survivors(s, keep);
                let k = choose|k: int| 0 <= k < t.len() && t[k] == x;
                assert(keep[s.len() - 1] && k == r.len());
                assert(s[s.len() - 1] == x);
            }
        }
        assert forall|x: SessionView|
            s.contains(x) && (exists|i: int| 0 <= i < s.len() && s[i] == x && keep[i]) implies survivors(
            s,
            keep,
        ).contains(x) by {
            let i = choose|i: int| 0 <= i < s.len() && s[i] == x && keep[i];
            if i == s.len() - 1 {
                assert(survivors(s, keep).last() == x);
            } else {
                assert(q[i] == x && kq[i]);
                assert(q.contains(x));
                assert(r.contains(x));
                let k = choose|k: int| 0 <= k < r.len() && r[k] == x;
                if keep[s.len() - 1] {
                    assert(survivors(s, keep)[k] == x);
                }
            }
        }
        if distinct(session_paths(s)) {
            assert(session_paths(q) =~= session_paths(s).drop_last());
            lemma_drop_last_distinct(session_paths(s));
            if keep[s.len() - 1] {
                assert(!session_paths(r).contains(s.last().0)) by {
                    if session_paths(r).contains(s.last().0) {
                        let a = choose|a: int| 0 <= a < r.len() && session_paths(r)[a] == s.last().0;
                        assert(r.contains(r[a]));
                        let m = choose|m: int| 0 <= m < q.len() && q[m] == r[a] && kq[m];
                        assert(session_paths(q)[m] == s.last().0);
                    }
                }
                assert(session_paths(r.push(s.last())) =~= session_paths(r).push(s.last().0));
                lemma_push_distinct(session_paths(r), s.last().0);
            }
        }
    }
}

/// Ending a session twice in a row leaves the same sessions as ending it once.
pub proof fn lemma_end_session_idempotent(s: Seq<SessionView>, path: Seq<char>)
    requires
        distinct(session_paths(s)),
    ensures
        ended(ended(s, path), path) == ended(s, path),
{
    let ps = session_paths(s);
    lemma_position_of(ps, path);
    let i = position_of(ps, path);
    if i >= 0 {
        let t = s.remove(i);
        let pt = session_paths(t);
        assert(pt =~= ps.remove(i));
        assert(!pt.contains(path)) by {
            if pt.contains(path) {
                let k = choose|k: int| 0 <= k < pt.len() && pt[k] == path;
                let k1 = if k < i { k } else { k + 1 };
                assert(ps[k1] == path);
            }
        }
        lemma_position_of(pt, path);
    }
}

/// The running sessions, at most one per path.
pub struct LaunchTracker {
    sessions: Vec<RunningSession>,
}

impl View for LaunchTracker {
    type V = Seq<SessionView>;

    closed spec fn view(&self) -> Seq<SessionView> {
        sessions_view(self.sessions@)
    }
}

impl LaunchTracker {
    pub open spec fn wf(&self) -> bool {
        distinct(session_paths(self@))
    }

    pub fn new() -> (r: Self)
        ensures
            r@ == Seq::<SessionView>::empty(),
            r.wf(),
    {
        let r = LaunchTracker { sessions: Vec::new() };
        assert(r@ =~= Seq::<SessionView>::empty());
        r
    }

    fn find(&self, path: &String) -> (r: Option<usize>)
        ensures
            match r {
                Some(i) => i == position_of(session_paths(self@), path@) && i < self@.len(),
                None => position_of(session_paths(self@), path@) == -1,
            },
    {
        assert(paths_in(self.sessions@) =~= session_paths(self@));
        find_path(&self.sessions, path)
    }

    /// The sessions, in the order they were first started.
    pub fn sessions(&self) -> (r: &Vec<RunningSession>)
        ensures
            sessions_view(r@) == self@,
    {
        &self.sessions
    }

    /// Records the outcome of starting the executable at `path`. A process id
    /// becomes the path's session, replacing any earlier one, and is returned;
    /// a spawn error becomes `LaunchFailed` and changes nothing.
    pub fn launch(&mut self, path: String, spawned: Result<u32, String>) -> (r: Result<u32, LaunchError>)
        requires
            old(self).wf(),
        ensures
            final(self).wf(),
            match spawned {
                Ok(pid) => r == Ok::<u32, LaunchError>(pid) && final(self)@ == started(old(self)@, path@, pid),
                Err(reason) => final(self)@ == old(self)@ && (match r {
                    Err(LaunchError::LaunchFailed(m)) => m == reason,
                    Ok(_) => false,
                }),
            },
    {
        match spawned {
            Ok(pid) => {
                let ghost s = self@;
                proof {
                    lemma_position_of(session_paths(s), path@);
                }
                match self.find(&path) {
                    Some(i) => {
                        self.sessions.remove(i);
                        self.sessions.insert(i, RunningSession { path, pid });
                        assert(self@ =~= s.update(i as int, (path@, pid)));
                        assert(session_paths(self@) =~= session_paths(s));
                    },
                    None => {
                        self.sessions.push(RunningSession { path, pid });
                        let ghost t = self@;
                        assert(t =~= s.push((path@, pid)));
                        proof {
                            lemma_position_of(session_paths(s), path@);
                            assert(session_paths(t) =~= session_paths(s).push(path@));
                            lemma_push_distinct(session_paths(s), path@);
                        }
                    },
                }
                Ok(pid)
            },
            Err(reason) => Err(LaunchError::LaunchFailed(reason)),
        }
    }

    /// Forgets the session for `path`; nothing happens when there is none.
    pub fn end_session(&mut self, path: &String)
        requires
            old(self).wf(),
        ensures
            final(self).wf(),
            final(self)@ == ended(old(self)@, path@),
    {
        let ghost s = self@;
        match self.find(path) {
            Some(i) => {
                self.sessions.remove(i);
                let ghost t = self@;
                assert(t =~= s.remove(i as int));
                assert(session_paths(t) =~= session_paths(s).remove(i as int));
                proof {
                    lemma_remove_distinct(session_paths(s), i as int);
                }
            },
            None => {},
        }
    }

    /// Whether a session is held for `path`.
    pub fn is_running(&self, path: &String) -> (r: bool)
        ensures
            r == session_paths(self@).contains(path@),
    {
        proof {
            lemma_position_of(session_paths(self@), path@);
        }
        self.find(path).is_some()
    }

    /// Keeps the sessions whose flag in `keep` is set and forgets the others.
    pub fn retain_flagged(&mut self, keep: &Vec<bool>)
        requires
            old(self).wf(),
            keep.len() == old(self)@.len(),
        ensures
            final(self).wf(),
            final(self)@ == survivors(old(self)@, keep@),
    {
        let ghost orig = self@;
        let ghost n = orig.len();
        let mut rest: Vec<RunningSession> = Vec::new();
        std::mem::swap(&mut rest, &mut self.sessions);
        let mut out: Vec<RunningSession> = Vec::new();
        let mut k: usize = 0;
        assert(orig.skip(0) =~= orig);
        assert(orig.take(0) =~= Seq::<SessionView>::empty());
        assert(keep@.take(0) =~= Seq::<bool>::empty());
        assert(sessions_view(out@) =~= Seq::<SessionView>::empty());
        while rest.len() > 0
            invariant
                k + rest.len() == n,
                keep.len() == n,
                orig.len() == n,
                sessions_view(rest@) == orig.skip(k as int),
                sessions_view(out@) == survivors(orig.take(k as int), keep@.take(k as int)),
            decreases rest.len(),
        {
            let ghost before = sessions_view(rest@);
            let x = rest.remove(0);
            assert(before[0] == orig[k as int]);
            assert(sessions_view(rest@) =~= orig.skip(k + 1)) by {
                assert forall|i: int| 0 <= i < rest.len() implies sessions_view(rest@)[i]
                    == orig.skip(k + 1)[i] by {
                    assert(before[i + 1] == orig[k + 1 + i]);
                }
            }
            assert(orig.take(k + 1).drop_last() =~= orig.take(k as int));
            assert(keep@.take(k + 1).take(k as int) =~= keep@.take(k as int));
            assert(orig.take(k + 1).last() == x@);
            assert(keep@.take(k + 1)[k as int] == keep@[k as int]);
            if keep[k] {
                let ghost prev = sessions_view(out@);
                out.push(x);
                assert(sessions_view(out@) =~= prev.push(x@));
            }
            k = k + 1;
        }
        assert(orig.take(n as int) =~= orig);
        assert(keep@.take(n as int) =~= keep@);
        proof {
            lemma_survivors_within(orig, keep@);
        }
        self.sessions = out;
    }
}

} // verus!
