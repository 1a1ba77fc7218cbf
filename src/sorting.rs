use vstd::prelude::*;
use crate::order::{key_le, key_less, key_lt, lemma_key_le_transitive, lemma_key_lt_asymmetric};
use crate::registry::{
    distinct, entries_view, lemma_drop_last_distinct, strings_view, AppEntry, EntryView,
};

verus! {

/// An entry paired with its sort key.
pub type Keyed = (EntryView, Seq<char>);

/// Slot of key `k` in `s`: just past the last pair whose key does not come after `k`.
pub open spec fn slot(s: Seq<Keyed>, k: Seq<char>) -> int
    decreases s.len(),
{
    if s.len() == 0 {
        0
    } else if key_lt(k, s.last().1) {
        slot(s.drop_last(), k)
    } else {
        s.len() as int
    }
}

/// Stable insertion sort by key: each pair in turn is placed after all
/// pairs already placed whose keys do not come after its own.
pub open spec fn keyed_sort(s: Seq<Keyed>) -> Seq<Keyed>
    decreases s.len(),
{
    if s.len() == 0 {
        s
    } else {
        let r = keyed_sort(s.drop_last());
        r.insert(slot(r, s.last().1), s.last())
    }
}

pub open spec fn zip_keys(s: Seq<EntryView>, ks: Seq<Seq<char>>) -> Seq<Keyed> {
    Seq::new(s.len(), |i: int| (s[i], ks[i]))
}

pub open spec fn sort_with_keys(s: Seq<EntryView>, ks: Seq<Seq<char>>) -> Seq<EntryView> {
    keyed_sort(zip_keys(s, ks)).map_values(|x: Keyed| x.0)
}

pub open spec fn keys_sorted(ks: Seq<Seq<char>>) -> bool {
    forall|i: int, j: int| 0 <= i < j < ks.len() ==> key_le(ks[i], ks[j])
}

pub open spec fn keys_of(s: Seq<Keyed>) -> Seq<Seq<char>> {
    s.map_values(|x: Keyed| x.1)
}

pub open spec fn keyed_paths(s: Seq<Keyed>) -> Seq<Seq<char>> {
    s.map_values(|x: Keyed| x.0.0)
}

pub proof fn lemma_slot(s: Seq<Keyed>, k: Seq<char>)
    ensures
        0 <= slot(s, k) <= s.len(),
        slot(s, k) > 0 ==> key_le(s[slot(s, k) - 1].1, k),
        slot(s, k) < s.len() ==> key_lt(k, s[slot(s, k)].1),
    decreases s.len(),
{
    if s.len() > 0 && key_lt(k, s.last().1) {
        lemma_slot(s.drop_last(), k);
    }
}

pub proof fn lemma_insert_contains(r: Seq<Keyed>, j: int, x: Keyed)
    requires
        0 <= j <= r.len(),
    ensures
        forall|y: Keyed| r.insert(j, x).contains(y) <==> (r.contains(y) || y == x),
{
    let t = r.insert(j, x);
    assert forall|y: Keyed| t.contains(y) <==> (r.contains(y) || y == x) by {
        if t.contains(y) {
            let k = choose|k: int| 0 <= k < t.len() && t[k] == y;
            if k < j {
                assert(r[k] == y);
            } else if k > j {
                assert(r[k - 1] == y);
            }
        }
        if r.contains(y) {
            let k = choose|k: int| 0 <= k < r.len() && r[k] == y;
            if k < j {
                assert(t[k] == y);
            } else {
                assert(t[k + 1] == y);
            }
        }
        if y == x {
            assert(t[j] == y);
        }
    }
}

pub proof fn lemma_insert_sorted(r: Seq<Keyed>, x: Keyed)
    requires
        keys_sorted(keys_of(r)),
    ensures
        keys_sorted(keys_of(r.insert(slot(r, x.1), x))),
{
    lemma_slot(r, x.1);
    let j = slot(r, x.1);
    let t = r.insert(j, x);
    let kr = keys_of(r);
    let kt = keys_of(t);
    assert forall|a: int, b: int| 0 <= a < b < kt.len() implies key_le(kt[a], kt[b]) by {
        if b < j {
            assert(kt[a] == kr[a] && kt[b] == kr[b]);
        } else if a > j {
            assert(kt[a] == kr[a - 1] && kt[b] == kr[b - 1]);
        } else if a == j {
            assert(kt[a] == x.1);
            assert(kt[b] == kr[b - 1]);
            assert(key_lt(x.1, r[j].1));
            lemma_key_lt_asymmetric(x.1, r[j].1);
            if b - 1 > j {
                assert(key_le(kr[j], kr[b - 1]));
                lemma_key_le_transitive(x.1, kr[j], kr[b - 1]);
            }
        } else if b == j {
            assert(kt[b] == x.1);
            assert(kt[a] == kr[a]);
            assert(key_le(r[j - 1].1, x.1));
            if a < j - 1 {
                assert(key_le(kr[a], kr[j - 1]));
                lemma_key_le_transitive(kr[a], kr[j - 1], x.1);
            }
        } else {
            assert(kt[a] == kr[a] && kt[b] == kr[b - 1]);
        }
    }
}

pub proof fn lemma_insert_distinct(r: Seq<Keyed>, j: int, x: Keyed)
    requires
        0 <= j <= r.len(),
        distinct(keyed_paths(r)),
        forall|a: int| 0 <= a < r.len() ==> r[a].0.0 != x.0.0,
    ensures
        distinct(keyed_paths(r.insert(j, x))),
{
    let t = r.insert(j, x);
    let pr = keyed_paths(r);
    let pt = keyed_paths(t);
    assert forall|a: int, b: int|
        0 <= a < pt.len() && 0 <= b < pt.len() && a != b implies pt[a] != pt[b] by {
        if a != j && b != j {
            let a1 = if a < j { a } else { a - 1 };
            let b1 = if b < j { b } else { b - 1 };
            assert(pt[a] == pr[a1] && pt[b] == pr[b1]);
        } else if a == j {
            let b1 = if b < j { b } else { b - 1 };
            assert(pt[b] == r[b1].0.0);
        } else {
            let a1 = if a < j { a } else { a - 1 };
            assert(pt[a] == r[a1].0.0);
        }
    }
}

pub proof fn lemma_keyed_sort(s: Seq<Keyed>)
    ensures
        keyed_sort(s).len() == s.len(),
        forall|x: Keyed| keyed_sort(s).contains(x) <==> s.contains(x),
        keys_sorted(keys_of(keyed_sort(s))),
        distinct(keyed_paths(s)) ==> distinct(keyed_paths(keyed_sort(s))),
    decreases s.len(),
{
    if s.len() > 0 {
        let q = s.drop_last();
        let x = s.last();
        let r = keyed_sort(q);
        lemma_keyed_sort(q);
        lemma_slot(r, x.1);
        let j = slot(r, x.1);
        let t = r.insert(j, x);
        assert(keyed_sort(s) == t);
        lemma_insert_contains(r, j, x);
        assert forall|y: Keyed| t.contains(y) <==> s.contains(y) by {
            if q.contains(y) {
                let m = choose|m: int| 0 <= m < q.len() && q[m] == y;
                assert(s[m] == y);
            }
            if y == x {
                assert(s[s.len() - 1] == y);
            }
            if s.contains(y) && y != x {
                let m = choose|m: int| 0 <= m < s.len() && s[m] == y;
                assert(q[m] == y);
            }
        }
        lemma_insert_sorted(r, x);
        if distinct(keyed_paths(s)) {
            assert(keyed_paths(q) =~= keyed_paths(s).drop_last());
            lemma_drop_last_distinct(keyed_paths(s));
            assert forall|a: int| 0 <= a < r.len() implies r[a].0.0 != x.0.0 by {
                assert(r.contains(r[a]));
                assert(q.contains(r[a]));
                let m = choose|m: int| 0 <= m < q.len() && q[m] == r[a];
                assert(keyed_paths(s)[m] == r[a].0.0);
                assert(keyed_paths(s)[s.len() - 1] == x.0.0);
            }
            lemma_insert_distinct(r, j, x);
        }
    }
}

/// Sorting pairs whose keys are already in order changes nothing.
pub proof fn lemma_keyed_sort_sorted(s: Seq<Keyed>)
    requires
        keys_sorted(keys_of(s)),
    ensures
        keyed_sort(s) == s,
    decreases s.len(),
{
    if s.len() > 0 {
        let q = s.drop_last();
        assert(keys_sorted(keys_of(q))) by {
            assert forall|i: int, j: int| 0 <= i < j < keys_of(q).len() implies key_le(
                keys_of(q)[i],
                keys_of(q)[j],
            ) by {
                assert(keys_of(q)[i] == keys_of(s)[i] && keys_of(q)[j] == keys_of(s)[j]);
            }
        }
        lemma_keyed_sort_sorted(q);
        if q.len() > 0 {
            assert(keys_of(s)[q.len() - 1] == q.last().1);
            assert(keys_of(s)[s.len() - 1] == s.last().1);
            assert(key_le(keys_of(s)[q.len() - 1], keys_of(s)[s.len() - 1]));
            assert(!key_lt(s.last().1, q.last().1));
        }
        assert(slot(q, s.last().1) == q.len());
        assert(q.insert(q.len() as int, s.last()) =~= s);
    }
}

pub open spec fn pairs_of(es: Seq<AppEntry>, ks: Seq<String>) -> Seq<Keyed> {
    Seq::new(es.len(), |i: int| (es[i]@, ks[i]@))
}

/// Stably sorts `entries` by `keys`, the key of each entry standing at its index.
pub fn sort_by_keys(entries: Vec<AppEntry>, keys: Vec<String>) -> (r: Vec<AppEntry>)
    requires
        entries.len() == keys.len(),
    ensures
        entries_view(r@) == sort_with_keys(entries_view(entries@), strings_view(keys@)),
{
    let ghost orig = pairs_of(entries@, keys@);
    let ghost n = entries.len() as int;
    let mut rest = entries;
    let mut rest_keys = keys;
    let mut out: Vec<AppEntry> = Vec::new();
    let mut out_keys: Vec<String> = Vec::new();
    assert(orig.skip(0) =~= orig);
    assert(orig.take(0) =~= Seq::<Keyed>::empty());
    while rest.len() > 0
        invariant
            rest.len() == rest_keys.len(),
            out.len() == out_keys.len(),
            rest.len() <= n,
            orig.len() == n,
            pairs_of(rest@, rest_keys@) == orig.skip(n - rest.len()),
            pairs_of(out@, out_keys@) == keyed_sort(orig.take(n - rest.len())),
        decreases rest.len(),
    {
        let ghost done = n - rest.len();
        let ghost before = pairs_of(rest@, rest_keys@);
        let e = rest.remove(0);
        let k = rest_keys.remove(0);
        assert(before[0] == orig[done]);
        assert(pairs_of(rest@, rest_keys@) =~= orig.skip(done + 1)) by {
            assert forall|i: int| 0 <= i < rest.len() implies pairs_of(rest@, rest_keys@)[i]
                == orig.skip(done + 1)[i] by {
                assert(before[i + 1] == orig[done + 1 + i]);
            }
        }
        let ghost p = pairs_of(out@, out_keys@);
        let mut j: usize = out.len();
        assert(p.take(j as int) =~= p);
        while j > 0 && key_less(k.as_str(), out_keys[j - 1].as_str())
            invariant
                j <= out.len(),
                out.len() == out_keys.len(),
                p == pairs_of(out@, out_keys@),
                slot(p, k@) == slot(p.take(j as int), k@),
            decreases j,
        {
            assert(p.take(j as int).drop_last() =~= p.take(j - 1));
            j = j - 1;
        }
        proof {
            if j > 0 {
                assert(p.take(j as int).last() == p[j - 1]);
            }
            assert(slot(p.take(j as int), k@) == j);
        }
        out.insert(j, e);
        out_keys.insert(j, k);
        assert(pairs_of(out@, out_keys@) =~= p.insert(j as int, (e@, k@)));
        assert(orig.take(done + 1).drop_last() =~= orig.take(done));
        assert(orig.take(done + 1).last() == (e@, k@));
    }
    assert(orig.take(n) =~= orig);
    assert(orig =~= zip_keys(entries_view(entries@), strings_view(keys@)));
    assert(entries_view(out@) =~= keyed_sort(orig).map_values(|x: Keyed| x.0));
    out
}

} // verus!
