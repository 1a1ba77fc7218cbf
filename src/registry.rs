use vstd::prelude::*;
use crate::names::{default_alias, get_executable_name};
use crate::order::key_le;
use crate::sorting::{
    keyed_sort, keys_of, keys_sorted, keyed_paths, lemma_keyed_sort, lemma_keyed_sort_sorted,
    sort_by_keys, sort_with_keys, zip_keys, Keyed,
};

verus! {

/// The lowercase form of a character sequence.
pub uninterp spec fn lower_of(s: Seq<char>) -> Seq<char>;

/// Relies on `str::to_lowercase`: its result depends on the characters of
/// `s` alone.
#[verifier::external_body]
fn lowercase(s: &str) -> (r: String)
    ensures
        r@ == lower_of(s@),
{
    s.to_lowercase()
}

/// Path, alias and accumulated playtime in milliseconds.
pub type EntryView = (Seq<char>, Seq<char>, u64);

/// A registered application.
pub struct AppEntry {
    pub path: String,
    pub alias: String,
    pub playtime_ms: u64,
}

impl View for AppEntry {
    type V = EntryView;

    open spec fn view(&self) -> EntryView {
        (self.path@, self.alias@, self.playtime_ms)
    }
}

#[derive(Debug, PartialEq, Eq, Structural)]
pub enum RegistryError {
    NotFound,
}

pub open spec fn entries_view(v: Seq<AppEntry>) -> Seq<EntryView> {
    v.map_values(|e: AppEntry| e@)
}

pub open spec fn strings_view(v: Seq<String>) -> Seq<Seq<char>> {
    v.map_values(|k: String| k@)
}

pub open spec fn paths_of(s: Seq<EntryView>) -> Seq<Seq<char>> {
    s.map_values(|e: EntryView| e.0)
}

/// Index of the last occurrence of `p` in `ps`, or -1 when there is none.
pub open spec fn position_of(ps: Seq<Seq<char>>, p: Seq<char>) -> int
    decreases ps.len(),
{
    if ps.len() == 0 {
        -1
    } else if ps.last() == p {
        ps.len() - 1
    } else {
        position_of(ps.drop_last(), p)
    }
}

pub open spec fn distinct(ps: Seq<Seq<char>>) -> bool {
    forall|i: int, j: int| 0 <= i < ps.len() && 0 <= j < ps.len() && i != j ==> ps[i] != ps[j]
}

pub proof fn lemma_position_of(ps: Seq<Seq<char>>, p: Seq<char>)
    ensures
        -1 <= position_of(ps, p) < ps.len(),
        position_of(ps, p) >= 0 ==> ps[position_of(ps, p)] == p,
        position_of(ps, p) == -1 <==> !ps.contains(p),
        distinct(ps) ==> forall|i: int| 0 <= i < ps.len() && ps[i] == p ==> i == position_of(ps, p),
    decreases ps.len(),
{
    if ps.len() > 0 {
        let q = ps.drop_last();
        lemma_position_of(q, p);
        if ps.last() != p {
            if ps.contains(p) {
                let k = choose|k: int| 0 <= k < ps.len() && ps[k] == p;
                assert(q[k] == p);
            }
            if distinct(ps) {
                assert(distinct(q));
            }
        } else {
            assert(ps.contains(p)) by {
                assert(ps[ps.len() - 1] == p);
            }
        }
    }
}

/// Appending a path not yet present keeps the paths distinct.
pub proof fn lemma_push_distinct(ps: Seq<Seq<char>>, p: Seq<char>)
    requires
        distinct(ps),
        !ps.contains(p),
    ensures
        distinct(ps.push(p)),
{
    let t = ps.push(p);
    assert forall|a: int, b: int| 0 <= a < t.len() && 0 <= b < t.len() && a != b implies t[a] != t[b] by {
        if a < ps.len() && b < ps.len() {
            assert(t[a] == ps[a] && t[b] == ps[b]);
        } else if a < ps.len() {
            assert(t[a] == ps[a] && ps.contains(ps[a]));
        } else {
            assert(t[b] == ps[b] && ps.contains(ps[b]));
        }
    }
}

/// Removing a path keeps the paths distinct.
pub proof fn lemma_remove_distinct(ps: Seq<Seq<char>>, i: int)
    requires
        distinct(ps),
        0 <= i < ps.len(),
    ensures
        distinct(ps.remove(i)),
{
    let t = ps.remove(i);
    assert forall|a: int, b: int| 0 <= a < t.len() && 0 <= b < t.len() && a != b implies t[a] != t[b] by {
        let a1 = if a < i { a } else { a + 1 };
        let b1 = if b < i { b } else { b + 1 };
        assert(t[a] == ps[a1] && t[b] == ps[b1]);
    }
}

/// Dropping the last path keeps the paths distinct.
pub proof fn lemma_drop_last_distinct(ps: Seq<Seq<char>>)
    requires
        distinct(ps),
        ps.len() > 0,
    ensures
        distinct(ps.drop_last()),
        !ps.drop_last().contains(ps.last()),
{
    let q = ps.drop_last();
    assert forall|a: int, b: int| 0 <= a < q.len() && 0 <= b < q.len() && a != b implies q[a] != q[b] by {
        assert(q[a] == ps[a] && q[b] == ps[b]);
    }
    if q.contains(ps.last()) {
        let k = choose|k: int| 0 <= k < q.len() && q[k] == ps.last();
        assert(ps[k] == ps[ps.len() - 1]);
    }
}

/// A record keyed by a file-system path.
pub trait HasPath {
    spec fn path_view(&self) -> Seq<char>;

    fn path_ref(&self) -> (r: &String)
        ensures
            r@ == self.path_view();
}

pub open spec fn paths_in<T: HasPath>(v: Seq<T>) -> Seq<Seq<char>> {
    v.map_values(|x: T| x.path_view())
}

/// Index of the last record of `v` with path `path`, if any.
pub fn find_path<T: HasPath>(v: &Vec<T>, path: &String) -> (r: Option<usize>)
    ensures
        match r {
            Some(i) => i < v@.len() && i == position_of(paths_in(v@), path@),
            None => position_of(paths_in(v@), path@) == -1,
        },
{
    let ghost ps = paths_in(v@);
    proof {
        lemma_position_of(ps, path@);
    }
    let mut j: usize = v.len();
    assert(ps.take(j as int) =~= ps);
    while j > 0
        invariant
            j <= v.len(),
            ps == paths_in(v@),
            position_of(ps, path@) == position_of(ps.take(j as int), path@),
        decreases j,
    {
        assert(ps.take(j as int).last() == v@[j - 1].path_view());
        if *v[j - 1].path_ref() == *path {
            return Some(j - 1);
        }
        assert(ps.take(j as int).drop_last() =~= ps.take(j - 1));
        j = j - 1;
    }
    None
}

impl HasPath for AppEntry {
    open spec fn path_view(&self) -> Seq<char> {
        self.path@
    }

    fn path_ref(&self) -> (r: &String) {
        &self.path
    }
}

pub open spec fn alias_keys(s: Seq<EntryView>) -> Seq<Seq<char>> {
    s.map_values(|e: EntryView| lower_of(e.1))
}

/// `s` stably sorted by case-insensitive alias.
pub open spec fn sort_by_alias(s: Seq<EntryView>) -> Seq<EntryView> {
    sort_with_keys(s, alias_keys(s))
}

proof fn lemma_alias_keys_of_sorted(s: Seq<EntryView>)
    ensures
        sort_by_alias(s).len() == s.len(),
        forall|e: EntryView| sort_by_alias(s).contains(e) <==> s.contains(e),
        keys_sorted(alias_keys(sort_by_alias(s))),
        distinct(paths_of(s)) ==> distinct(paths_of(sort_by_alias(s))),
{
    let z = zip_keys(s, alias_keys(s));
    let r = keyed_sort(z);
    lemma_keyed_sort(z);
    let out = sort_by_alias(s);
    assert(out == r.map_values(|x: Keyed| x.0));
    assert forall|i: int| 0 <= i < r.len() implies r[i].1 == lower_of(r[i].0.1) by {
        assert(r.contains(r[i]));
        assert(z.contains(r[i]));
        let m = choose|m: int| 0 <= m < z.len() && z[m] == r[i];
    }
    assert(alias_keys(out) =~= keys_of(r));
    assert forall|e: EntryView| out.contains(e) <==> s.contains(e) by {
        if out.contains(e) {
            let k = choose|k: int| 0 <= k < out.len() && out[k] == e;
            assert(r.contains(r[k]));
            assert(z.contains(r[k]));
            let m = choose|m: int| 0 <= m < z.len() && z[m] == r[k];
            assert(s[m] == e);
        }
        if s.contains(e) {
            let m = choose|m: int| 0 <= m < s.len() && s[m] == e;
            assert(z.contains(z[m]));
            assert(r.contains(z[m]));
            let k = choose|k: int| 0 <= k < r.len() && r[k] == z[m];
            assert(out[k] == e);
        }
    }
    if distinct(paths_of(s)) {
        assert(keyed_paths(z) =~= paths_of(s));
        assert(paths_of(out) =~= keyed_paths(r));
    }
}

/// Sorting a sequence already in alias order changes nothing.
proof fn lemma_sort_by_alias_sorted(s: Seq<EntryView>)
    requires
        keys_sorted(alias_keys(s)),
    ensures
        sort_by_alias(s) == s,
{
    let z = zip_keys(s, alias_keys(s));
    assert(keys_of(z) =~= alias_keys(s));
    lemma_keyed_sort_sorted(z);
    assert(z.map_values(|x: Keyed| x.0) =~= s);
}

/// Index of the entry with path `path` in `entries`, if any.
fn position_in(entries: &Vec<AppEntry>, path: &String) -> (r: Option<usize>)
    ensures
        match r {
            Some(i) => i == position_of(paths_of(entries_view(entries@)), path@),
            None => position_of(paths_of(entries_view(entries@)), path@) == -1,
        },
{
    assert(paths_in(entries@) =~= paths_of(entries_view(entries@)));
    find_path(entries, path)
}

pub open spec fn chosen_alias(path: Seq<char>, alias: Seq<char>) -> Seq<char> {
    if alias.len() == 0 {
        default_alias(path)
    } else {
        alias
    }
}

/// Entries after the entry at `path` is renamed to `alias` and all are re-sorted.
pub open spec fn renamed(s: Seq<EntryView>, path: Seq<char>, alias: Seq<char>) -> Seq<EntryView> {
    let i = position_of(paths_of(s), path);
    sort_by_alias(s.update(i, (path, chosen_alias(path, alias), s[i].2)))
}

/// Entries after registering `path` under `alias`: a new entry starts with no
/// playtime; a known one keeps its playtime and takes the alias.
pub open spec fn added(s: Seq<EntryView>, path: Seq<char>, alias: Seq<char>) -> Seq<EntryView> {
    if position_of(paths_of(s), path) >= 0 {
        renamed(s, path, alias)
    } else {
        sort_by_alias(s.push((path, chosen_alias(path, alias), 0)))
    }
}

pub open spec fn removed(s: Seq<EntryView>, path: Seq<char>) -> Seq<EntryView> {
    let i = position_of(paths_of(s), path);
    if i >= 0 {
        s.remove(i)
    } else {
        s
    }
}

pub open spec fn saturating_sum(a: u64, b: u64) -> u64 {
    if a + b > u64::MAX {
        u64::MAX
    } else {
        (a + b) as u64
    }
}

/// Entries after `delta` milliseconds are added to the playtime at `path`.
pub open spec fn with_playtime(s: Seq<EntryView>, path: Seq<char>, delta: u64) -> Seq<EntryView> {
    let i = position_of(paths_of(s), path);
    if i >= 0 {
        s.update(i, (s[i].0, s[i].1, saturating_sum(s[i].2, delta)))
    } else {
        s
    }
}

pub open spec fn sum_of(ds: Seq<u64>) -> nat
    decreases ds.len(),
{
    if ds.len() == 0 {
        0
    } else {
        (sum_of(ds.drop_last()) + ds.last()) as nat
    }
}

/// Entries after each delta of `ds` in turn is added to the playtime at `path`.
pub open spec fn with_playtimes(s: Seq<EntryView>, path: Seq<char>, ds: Seq<u64>) -> Seq<EntryView>
    decreases ds.len(),
{
    if ds.len() == 0 {
        s
    } else {
        with_playtime(with_playtimes(s, path, ds.drop_last()), path, ds.last())
    }
}

/// Adding a run of deltas to the playtime of a registered path raises it by
/// their sum, up to the largest `u64`, and never lowers it.
pub proof fn lemma_playtime_accumulates(s: Seq<EntryView>, path: Seq<char>, ds: Seq<u64>)
    requires
        paths_of(s).contains(path),
    ensures
        playtime_of(with_playtimes(s, path, ds), path) == if playtime_of(s, path) + sum_of(ds)
            > u64::MAX {
            u64::MAX as int
        } else {
            playtime_of(s, path) + sum_of(ds)
        },
        playtime_of(with_playtimes(s, path, ds), path) >= playtime_of(s, path),
        paths_of(with_playtimes(s, path, ds)) == paths_of(s),
    decreases ds.len(),
{
    lemma_position_of(paths_of(s), path);
    if ds.len() > 0 {
        let t = with_playtimes(s, path, ds.drop_last());
        lemma_playtime_accumulates(s, path, ds.drop_last());
        let i = position_of(paths_of(t), path);
        assert(paths_of(with_playtime(t, path, ds.last())) =~= paths_of(t));
    }
}

pub open spec fn playtime_of(s: Seq<EntryView>, path: Seq<char>) -> u64 {
    let i = position_of(paths_of(s), path);
    if i >= 0 {
        s[i].2
    } else {
        0
    }
}

pub open spec fn well_formed(s: Seq<EntryView>) -> bool {
    distinct(paths_of(s)) && keys_sorted(alias_keys(s))
}

/// Entries after each `(path, alias)` of `adds` in turn is registered.
pub open spec fn added_all(s: Seq<EntryView>, adds: Seq<(Seq<char>, Seq<char>)>) -> Seq<EntryView>
    decreases adds.len(),
{
    if adds.len() == 0 {
        s
    } else {
        let (p, a) = adds.last();
        added(added_all(s, adds.drop_last()), p, a)
    }
}

/// Registering a path leaves at most one entry per path, and an entry for
/// the registered path.
pub proof fn lemma_add_keeps_paths_unique(s: Seq<EntryView>, path: Seq<char>, alias: Seq<char>)
    requires
        distinct(paths_of(s)),
    ensures
        distinct(paths_of(added(s, path, alias))),
        paths_of(added(s, path, alias)).contains(path),
{
    let ps = paths_of(s);
    lemma_position_of(ps, path);
    let i = position_of(ps, path);
    let a = chosen_alias(path, alias);
    let u = if i >= 0 {
        s.update(i, (path, a, s[i].2))
    } else {
        s.push((path, a, 0))
    };
    let k = if i >= 0 {
        i
    } else {
        s.len() as int
    };
    assert(u[k].0 == path);
    if i >= 0 {
        assert(paths_of(u) =~= ps);
    } else {
        assert(paths_of(u) =~= ps.push(path));
        lemma_push_distinct(ps, path);
    }
    lemma_alias_keys_of_sorted(u);
    let r = sort_by_alias(u);
    assert(u.contains(u[k]));
    assert(r.contains(u[k]));
    let m = choose|m: int| 0 <= m < r.len() && r[m] == u[k];
    assert(paths_of(r)[m] == path);
}

/// After any run of registrations the registry holds at most one entry per
/// path, and one for each path registered.
pub proof fn lemma_adds_keep_paths_unique(s: Seq<EntryView>, adds: Seq<(Seq<char>, Seq<char>)>)
    requires
        distinct(paths_of(s)),
    ensures
        distinct(paths_of(added_all(s, adds))),
        forall|k: int| 0 <= k < adds.len() ==> paths_of(added_all(s, adds)).contains(#[trigger] adds[k].0),
    decreases adds.len(),
{
    if adds.len() > 0 {
        let q = adds.drop_last();
        let t = added_all(s, q);
        lemma_adds_keep_paths_unique(s, q);
        let (p, a) = adds.last();
        lemma_add_keeps_paths_unique(t, p, a);
        assert forall|k: int| 0 <= k < adds.len() implies paths_of(added_all(s, adds)).contains(
            #[trigger] adds[k].0,
        ) by {
            if k < q.len() {
                assert(q[k] == adds[k]);
                lemma_add_keeps_path(t, p, a, adds[k].0);
            }
        }
    }
}

/// Registering a path keeps every path already registered.
proof fn lemma_add_keeps_path(s: Seq<EntryView>, path: Seq<char>, alias: Seq<char>, other: Seq<char>)
    requires
        paths_of(s).contains(other),
    ensures
        paths_of(added(s, path, alias)).contains(other),
{
    let ps = paths_of(s);
    lemma_position_of(ps, path);
    let i = position_of(ps, path);
    let a = chosen_alias(path, alias);
    let u = if i >= 0 {
        s.update(i, (path, a, s[i].2))
    } else {
        s.push((path, a, 0))
    };
    let k = choose|k: int| 0 <= k < ps.len() && ps[k] == other;
    assert(u[k].0 == other);
    lemma_alias_keys_of_sorted(u);
    let r = sort_by_alias(u);
    assert(u.contains(u[k]));
    assert(r.contains(u[k]));
    let m = choose|m: int| 0 <= m < r.len() && r[m] == u[k];
    assert(paths_of(r)[m] == other);
}

/// Storing the entries of a well-formed registry and loading them back
/// gives the same entries, in the same order.
pub proof fn lemma_reload_round_trip(s: Seq<EntryView>)
    requires
        well_formed(s),
    ensures
        sort_by_alias(first_by_path(s)) == s,
{
    lemma_first_by_path_identity(s);
    lemma_sort_by_alias_sorted(s);
}

/// The known applications, kept in case-insensitive alias order.
pub struct AppRegistry {
    entries: Vec<AppEntry>,
}

impl View for AppRegistry {
    type V = Seq<EntryView>;

    closed spec fn view(&self) -> Seq<EntryView> {
        entries_view(self.entries@)
    }
}

/// Keeps the first entry of each path.
pub open spec fn first_by_path(s: Seq<EntryView>) -> Seq<EntryView>
    decreases s.len(),
{
    if s.len() == 0 {
        s
    } else {
        let d = first_by_path(s.drop_last());
        if paths_of(d).contains(s.last().0) {
            d
        } else {
            d.push(s.last())
        }
    }
}

proof fn lemma_first_by_path_distinct(s: Seq<EntryView>)
    ensures
        distinct(paths_of(first_by_path(s))),
    decreases s.len(),
{
    if s.len() > 0 {
        let d = first_by_path(s.drop_last());
        lemma_first_by_path_distinct(s.drop_last());
        if !paths_of(d).contains(s.last().0) {
            assert(paths_of(d.push(s.last())) =~= paths_of(d).push(s.last().0));
            lemma_push_distinct(paths_of(d), s.last().0);
        }
    }
}

proof fn lemma_first_by_path_identity(s: Seq<EntryView>)
    requires
        distinct(paths_of(s)),
    ensures
        first_by_path(s) == s,
    decreases s.len(),
{
    if s.len() > 0 {
        let q = s.drop_last();
        assert(paths_of(q) =~= paths_of(s).drop_last());
        lemma_drop_last_distinct(paths_of(s));
        lemma_first_by_path_identity(q);
        assert(q.push(s.last()) =~= s);
    }
}

impl AppRegistry {
    pub open spec fn wf(&self) -> bool {
        well_formed(self@)
    }

    /// An empty registry.
    pub fn new() -> (r: Self)
        ensures
            r@ == Seq::<EntryView>::empty(),
            r.wf(),
    {
        let r = AppRegistry { entries: Vec::new() };
        assert(r@ =~= Seq::<EntryView>::empty());
        r
    }

    /// A registry holding `entries` as stored earlier: the first entry of
    /// each path is kept, and the result is sorted by alias.
    pub fn from_entries(entries: Vec<AppEntry>) -> (r: Self)
        ensures
            r@ == sort_by_alias(first_by_path(entries_view(entries@))),
            r.wf(),
    {
        let ghost orig = entries_view(entries@);
        let ghost n = entries.len() as int;
        let mut rest = entries;
        let mut out: Vec<AppEntry> = Vec::new();
        assert(orig.skip(0) =~= orig);
        assert(orig.take(0) =~= Seq::<EntryView>::empty());
        assert(entries_view(out@) =~= Seq::<EntryView>::empty());
        while rest.len() > 0
            invariant
                rest.len() <= n,
                orig.len() == n,
                entries_view(rest@) == orig.skip(n - rest.len()),
                entries_view(out@) == first_by_path(orig.take(n - rest.len())),
            decreases rest.len(),
        {
            let ghost done = n - rest.len();
            let ghost before = entries_view(rest@);
            let e = rest.remove(0);
            assert(before[0] == orig[done]);
            assert(entries_view(rest@) =~= orig.skip(done + 1)) by {
                assert forall|i: int| 0 <= i < rest.len() implies entries_view(rest@)[i]
                    == orig.skip(done + 1)[i] by {
                    assert(before[i + 1] == orig[done + 1 + i]);
                }
            }
            assert(orig.take(done + 1).drop_last() =~= orig.take(done));
            assert(orig.take(done + 1).last() == e@);
            let found = position_in(&out, &e.path);
            proof {
                lemma_position_of(paths_of(entries_view(out@)), e.path@);
            }
            if found.is_none() {
                let ghost prev = entries_view(out@);
                out.push(e);
                assert(entries_view(out@) =~= prev.push(e@));
            }
        }
        assert(orig.take(n) =~= orig);
        proof {
            lemma_first_by_path_distinct(orig);
        }
        let mut r = AppRegistry { entries: out };
        r.resort();
        r
    }

    /// Sorts the entries by case-insensitive alias, keeping the relative order
    /// of entries whose aliases compare equal.
    fn resort(&mut self)
        requires
            distinct(paths_of(old(self)@)),
        ensures
            final(self)@ == sort_by_alias(old(self)@),
            final(self).wf(),
    {
        let mut entries: Vec<AppEntry> = Vec::new();
        std::mem::swap(&mut entries, &mut self.entries);
        let ghost s = entries_view(entries@);
        let mut keys: Vec<String> = Vec::new();
        let mut i: usize = 0;
        while i < entries.len()
            invariant
                i <= entries.len(),
                s == entries_view(entries@),
                strings_view(keys@) == alias_keys(s).take(i as int),
            decreases entries.len() - i,
        {
            let k = lowercase(entries[i].alias.as_str());
            let ghost prev = keys@;
            keys.push(k);
            assert(strings_view(keys@) =~= alias_keys(s).take(i + 1)) by {
                assert(strings_view(prev) == alias_keys(s).take(i as int));
                assert(keys@ =~= prev.push(k));
                assert(strings_view(keys@) =~= strings_view(prev).push(k@));
                assert(s[i as int].1 == entries@[i as int].alias@);
                assert(alias_keys(s)[i as int] == k@);
            }
            i = i + 1;
        }
        assert(alias_keys(s).take(i as int) =~= alias_keys(s));
        self.entries = sort_by_keys(entries, keys);
        proof {
            lemma_alias_keys_of_sorted(s);
        }
    }

    /// Index of the entry with path `path`.
    fn find(&self, path: &String) -> (r: Option<usize>)
        ensures
            match r {
                Some(i) => i == position_of(paths_of(self@), path@) && i < self@.len(),
                None => position_of(paths_of(self@), path@) == -1,
            },
    {
        proof {
            lemma_position_of(paths_of(self@), path@);
        }
        position_in(&self.entries, path)
    }

    /// The entries in alias order.
    pub fn entries(&self) -> (r: &Vec<AppEntry>)
        ensures
            entries_view(r@) == self@,
    {
        &self.entries
    }

    pub fn len(&self) -> (r: usize)
        ensures
            r == self@.len(),
    {
        self.entries.len()
    }

    /// Whether an entry has path `path`.
    pub fn contains(&self, path: &String) -> (r: bool)
        ensures
            r == paths_of(self@).contains(path@),
    {
        proof {
            lemma_position_of(paths_of(self@), path@);
        }
        self.find(path).is_some()
    }

    /// Registers `path` under `alias`, or under its default alias when `alias`
    /// is empty. A path already present keeps its playtime and takes the
    /// alias. The entries are then re-sorted.
    pub fn add(&mut self, path: String, alias: String)
        requires
            old(self).wf(),
        ensures
            final(self).wf(),
            final(self)@ == added(old(self)@, path@, alias@),
    {
        let ghost s = self@;
        let chosen = if alias.as_str().unicode_len() == 0 {
            get_executable_name(&path)
        } else {
            alias
        };
        proof {
            lemma_position_of(paths_of(s), path@);
        }
        match self.find(&path) {
            Some(i) => {
                let mut e = self.entries.remove(i);
                e.alias = chosen;
                self.entries.insert(i, e);
                assert(self@ =~= s.update(i as int, (path@, chosen_alias(path@, alias@), s[i as int].2)));
                assert(paths_of(self@) =~= paths_of(s));
            },
            None => {
                self.entries.push(AppEntry { path, alias: chosen, playtime_ms: 0 });
                let ghost t = self@;
                assert(t =~= s.push((path@, chosen_alias(path@, alias@), 0)));
                assert(paths_of(t) =~= paths_of(s).push(path@));
                proof {
                    lemma_push_distinct(paths_of(s), path@);
                }
            },
        }
        self.resort();
    }

    /// Gives the entry at `path` the alias `alias`, or its default alias when
    /// `alias` is empty, and re-sorts. Fails with `NotFound` when no entry has
    /// that path.
    pub fn set_alias(&mut self, path: &String, alias: String) -> (r: Result<(), RegistryError>)
        requires
            old(self).wf(),
        ensures
            final(self).wf(),
            r is Ok <==> paths_of(old(self)@).contains(path@),
            r is Ok ==> final(self)@ == renamed(old(self)@, path@, alias@),
            r is Err ==> r == Err::<(), RegistryError>(RegistryError::NotFound) && final(self)@
                == old(self)@,
    {
        let ghost s = self@;
        proof {
            lemma_position_of(paths_of(s), path@);
        }
        match self.find(path) {
            Some(i) => {
                let chosen = if alias.as_str().unicode_len() == 0 {
                    get_executable_name(path)
                } else {
                    alias
                };
                let mut e = self.entries.remove(i);
                e.alias = chosen;
                self.entries.insert(i, e);
                assert(self@ =~= s.update(i as int, (path@, chosen_alias(path@, alias@), s[i as int].2)));
                assert(paths_of(self@) =~= paths_of(s));
                self.resort();
                Ok(())
            },
            None => Err(RegistryError::NotFound),
        }
    }

    /// Deletes the entry at `path`; nothing happens when there is none.
    pub fn remove(&mut self, path: &String)
        requires
            old(self).wf(),
        ensures
            final(self).wf(),
            final(self)@ == removed(old(self)@, path@),
    {
        let ghost s = self@;
        match self.find(path) {
            Some(i) => {
                self.entries.remove(i);
                let ghost t = self@;
                assert(t =~= s.remove(i as int));
                assert(paths_of(t) =~= paths_of(s).remove(i as int));
                assert(alias_keys(t) =~= alias_keys(s).remove(i as int));
                proof {
                    lemma_remove_distinct(paths_of(s), i as int);
                }
                assert forall|a: int, b: int| 0 <= a < b < t.len() implies key_le(
                    alias_keys(t)[a],
                    alias_keys(t)[b],
                ) by {
                    let a1 = if a < i { a } else { a + 1 };
                    let b1 = if b < i { b } else { b + 1 };
                    assert(alias_keys(t)[a] == alias_keys(s)[a1]);
                    assert(alias_keys(t)[b] == alias_keys(s)[b1]);
                }
            },
            None => {},
        }
    }

    /// Adds `delta_ms` to the playtime of the entry at `path`, saturating at
    /// the largest `u64`; nothing happens when there is no such entry.
    pub fn add_playtime(&mut self, path: &String, delta_ms: u64)
        requires
            old(self).wf(),
        ensures
            final(self).wf(),
            final(self)@ == with_playtime(old(self)@, path@, delta_ms),
    {
        let ghost s = self@;
        match self.find(path) {
            Some(i) => {
                let mut e = self.entries.remove(i);
                e.playtime_ms = e.playtime_ms.saturating_add(delta_ms);
                self.entries.insert(i, e);
                assert(self@ =~= with_playtime(s, path@, delta_ms));
                assert(paths_of(self@) =~= paths_of(s));
                assert(alias_keys(self@) =~= alias_keys(s));
            },
            None => {},
        }
    }

    /// Playtime of the entry at `path`, 0 when there is none.
    pub fn get_playtime(&self, path: &String) -> (r: u64)
        ensures
            r == playtime_of(self@, path@),
    {
        match self.find(path) {
            Some(i) => self.entries[i].playtime_ms,
            None => 0,
        }
    }

    /// Playtime of the entry at `path`; fails with `NotFound` when there is none.
    pub fn playtime(&self, path: &String) -> (r: Result<u64, RegistryError>)
        ensures
            r is Ok <==> paths_of(self@).contains(path@),
            r is Ok ==> r == Ok::<u64, RegistryError>(playtime_of(self@, path@)),
    {
        proof {
            lemma_position_of(paths_of(self@), path@);
        }
        match self.find(path) {
            Some(i) => Ok(self.entries[i].playtime_ms),
            None => Err(RegistryError::NotFound),
        }
    }

    /// Alias of the entry at `path`; fails with `NotFound` when there is none.
    pub fn alias(&self, path: &String) -> (r: Result<&String, RegistryError>)
        ensures
            r is Ok <==> paths_of(self@).contains(path@),
            forall|a: &String| r == Ok::<&String, RegistryError>(a) ==> a@ == self@[position_of(paths_of(self@), path@)].1,
    {
        proof {
            lemma_position_of(paths_of(self@), path@);
        }
        match self.find(path) {
            Some(i) => Ok(&self.entries[i].alias),
            None => Err(RegistryError::NotFound),
        }
    }
}

} // verus!
