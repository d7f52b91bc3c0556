use vstd::prelude::*;

use crate::error::Error;
use crate::path::{
    has_parent_step, is_prefix, key_lt, lemma_key_lt_irreflexive, lemma_key_lt_transitive,
    lemma_normalized_valid, normalized, valid_key, PathKey,
};
use std::cmp::Ordering;

verus! {

/// An entry seen as values: the key's segments and the secret's text.
pub type EntryView = (Seq<Seq<char>>, Seq<char>);

pub open spec fn entries_view(v: Seq<(PathKey, String)>) -> Seq<EntryView> {
    v.map_values(|e: (PathKey, String)| (e.0@, e.1@))
}

pub open spec fn keys_view(v: Seq<PathKey>) -> Seq<Seq<Seq<char>>> {
    v.map_values(|k: PathKey| k@)
}

/// The keys of the entries, in order.
pub open spec fn keys_of(s: Seq<EntryView>) -> Seq<Seq<Seq<char>>> {
    s.map_values(|e: EntryView| e.0)
}

/// Keys strictly ascend in the store's order (so no key occurs twice).
pub open spec fn sorted(s: Seq<EntryView>) -> bool {
    forall|i: int, j: int| 0 <= i < j < s.len() ==> key_lt(#[trigger] s[i].0, #[trigger] s[j].0)
}

/// Every key is normalized.
pub open spec fn all_valid(s: Seq<EntryView>) -> bool {
    forall|i: int| 0 <= i < s.len() ==> valid_key(#[trigger] s[i].0)
}

/// Whether a listing scoped by `prefix` takes the entry: every entry when
/// there is no prefix, else those at the prefix or below it.
pub open spec fn selects(prefix: Option<Seq<Seq<char>>>, e: EntryView) -> bool {
    match prefix {
        None => true,
        Some(p) => is_prefix(p, e.0),
    }
}

pub open spec fn selected(prefix: Option<Seq<Seq<char>>>) -> spec_fn(EntryView) -> bool {
    |e: EntryView| selects(prefix, e)
}

pub open spec fn not_under(p: Seq<Seq<char>>) -> spec_fn(EntryView) -> bool {
    |e: EntryView| !is_prefix(p, e.0)
}

/// The normalized form of an optional raw prefix.
pub open spec fn normalized_opt(raw: Option<&str>) -> Option<Seq<Seq<char>>> {
    match raw {
        None => None,
        Some(r) => Some(normalized(r@)),
    }
}

/// Pairs as a map from first to second component; a later pair wins a
/// shared key.
pub open spec fn as_map<K, V>(s: Seq<(K, V)>) -> Map<K, V>
    decreases s.len(),
{
    if s.len() == 0 {
        Map::empty()
    } else {
        as_map(s.drop_last()).insert(s.last().0, s.last().1)
    }
}

/// No two pairs share a key.
pub open spec fn distinct_keys<K, V>(s: Seq<(K, V)>) -> bool {
    forall|i: int, j: int| 0 <= i < j < s.len() ==> #[trigger] s[i].0 != #[trigger] s[j].0
}

/// With distinct keys each pair is what the map holds at its key, and the
/// map holds nothing else.
pub proof fn lemma_as_map_pairs<K, V>(s: Seq<(K, V)>)
    requires
        distinct_keys(s),
    ensures
        forall|i: int|
            0 <= i < s.len() ==> #[trigger] as_map(s).contains_key(s[i].0) && as_map(s)[s[i].0]
                == s[i].1,
        forall|k: K| #[trigger] as_map(s).contains_key(k) ==> exists|i: int| 0 <= i < s.len() && s[i].0 == k,
    decreases s.len(),
{
    if s.len() > 0 {
        let t = s.drop_last();
        assert(distinct_keys(t)) by {
            assert forall|i: int, j: int| 0 <= i < j < t.len() implies #[trigger] t[i].0
                != #[trigger] t[j].0 by {
                assert(t[i] == s[i] && t[j] == s[j]);
            }
        }
        lemma_as_map_pairs(t);
        assert(as_map(s) == as_map(t).insert(s.last().0, s.last().1));
        assert forall|i: int| 0 <= i < s.len() implies #[trigger] as_map(s).contains_key(s[i].0)
            && as_map(s)[s[i].0] == s[i].1 by {
            if i < s.len() - 1 {
                assert(t[i] == s[i]);
                assert(as_map(t).contains_key(t[i].0));
                assert(s[i].0 != s[s.len() - 1].0);
                assert(as_map(s)[s[i].0] == as_map(t)[s[i].0]);
            } else {
                assert(s[i] == s.last());
            }
        }
        assert forall|k: K| #[trigger] as_map(s).contains_key(k) implies exists|i: int|
            0 <= i < s.len() && s[i].0 == k by {
            if k != s.last().0 {
                let i = choose|i: int| 0 <= i < t.len() && t[i].0 == k;
                assert(s[i] == t[i]);
            } else {
                assert(s[s.len() - 1].0 == k);
            }
        }
    }
}

/// Sorted entries have distinct keys.
pub proof fn lemma_sorted_distinct(s: Seq<EntryView>)
    requires
        sorted(s),
    ensures
        distinct_keys(s),
{
    assert forall|i: int, j: int| 0 <= i < j < s.len() implies #[trigger] s[i].0
        != #[trigger] s[j].0 by {
        lemma_key_lt_irreflexive(s[i].0);
    }
}

/// In a sorted sequence each entry is what the map holds at its key, and the
/// map holds nothing else.
pub proof fn lemma_as_map_index(s: Seq<EntryView>)
    requires
        sorted(s),
    ensures
        forall|i: int|
            0 <= i < s.len() ==> #[trigger] as_map(s).contains_key(s[i].0) && as_map(s)[s[i].0]
                == s[i].1,
        forall|k: Seq<Seq<char>>|
            #[trigger] as_map(s).contains_key(k) ==> exists|i: int| 0 <= i < s.len() && s[i].0 == k,
{
    lemma_sorted_distinct(s);
    lemma_as_map_pairs(s);
}

/// A filtered sorted sequence stays sorted.
pub proof fn lemma_filter_sorted(s: Seq<EntryView>, f: spec_fn(EntryView) -> bool)
    requires
        sorted(s),
    ensures
        sorted(s.filter(f)),
    decreases s.len(),
{
    reveal(Seq::filter);
    if s.len() > 0 {
        let t = s.drop_last();
        assert(sorted(t));
        lemma_filter_sorted(t, f);
        let ft = t.filter(f);
        if f(s.last()) {
            let fs = s.filter(f);
            assert(fs == ft.push(s.last()));
            assert forall|i: int, j: int| 0 <= i < j < fs.len() implies key_lt(
                #[trigger] fs[i].0,
                #[trigger] fs[j].0,
            ) by {
                if j == fs.len() - 1 {
                    assert(ft.contains(ft[i]));
                    t.lemma_filter_contains_rev(f, ft[i]);
                    let k = choose|k: int| 0 <= k < t.len() && t[k] == ft[i];
                    assert(s[k] == t[k]);
                } else {
                    assert(fs[i] == ft[i] && fs[j] == ft[j]);
                }
            }
        }
    }
}

/// Every entry of a filtered sequence comes from the sequence.
pub proof fn lemma_filter_from(s: Seq<EntryView>, f: spec_fn(EntryView) -> bool)
    ensures
        forall|i: int|
            0 <= i < s.filter(f).len() ==> f(#[trigger] s.filter(f)[i]) && s.contains(
                s.filter(f)[i],
            ),
{
    broadcast use vstd::seq_lib::group_filter_ensures;

    assert forall|i: int| 0 <= i < s.filter(f).len() implies f(#[trigger] s.filter(f)[i])
        && s.contains(s.filter(f)[i]) by {
        assert(s.filter(f).contains(s.filter(f)[i]));
        s.lemma_filter_contains_rev(f, s.filter(f)[i]);
    }
}

pub proof fn lemma_filter_all(s: Seq<EntryView>, f: spec_fn(EntryView) -> bool)
    requires
        forall|e: EntryView| #[trigger] f(e),
    ensures
        s.filter(f) == s,
    decreases s.len(),
{
    reveal(Seq::filter);
    if s.len() > 0 {
        lemma_filter_all(s.drop_last(), f);
        assert(s.drop_last().push(s.last()) =~= s);
    }
}

/// A listing with no prefix is every entry in ascending key order; a listing
/// under a prefix is exactly the entries at or below it, still ascending and
/// in the store's relative order.
pub proof fn lemma_listing(s: Seq<EntryView>, p: Option<Seq<Seq<char>>>)
    requires
        sorted(s),
    ensures
        sorted(s.filter(selected(p))),
        p is None ==> s.filter(selected(p)) == s,
        forall|e: EntryView| #[trigger] s.filter(selected(p)).contains(e) <==> s.contains(e)
            && selects(p, e),
{
    broadcast use vstd::seq_lib::group_filter_ensures;

    lemma_filter_sorted(s, selected(p));
    if p is None {
        lemma_filter_all(s, selected(p));
    }
    assert forall|e: EntryView| #[trigger] s.filter(selected(p)).contains(e) <==> s.contains(e)
        && selects(p, e) by {
        if s.filter(selected(p)).contains(e) {
            s.lemma_filter_contains_rev(selected(p), e);
            let i = choose|i: int| 0 <= i < s.filter(selected(p)).len() && s.filter(selected(p))[i]
                == e;
            assert(selected(p)(s.filter(selected(p))[i]));
        }
        if s.contains(e) && selects(p, e) {
            let i = choose|i: int| 0 <= i < s.len() && s[i] == e;
            assert(s.filter(selected(p)).contains(s[i]));
        }
    }
}

/// After removing the subtree at `p`, a listing under `p` is empty, and every
/// entry outside the subtree is still there, in the same order.
pub proof fn lemma_remove_then_list(s: Seq<EntryView>, p: Seq<Seq<char>>)
    requires
        sorted(s),
    ensures
        s.filter(not_under(p)).filter(selected(Some(p))).len() == 0,
        sorted(s.filter(not_under(p))),
        forall|e: EntryView| #[trigger] s.filter(not_under(p)).contains(e) <==> s.contains(e)
            && !is_prefix(p, e.0),
{
    broadcast use vstd::seq_lib::group_filter_ensures;

    let r = s.filter(not_under(p));
    lemma_filter_sorted(s, not_under(p));
    let l = r.filter(selected(Some(p)));
    if l.len() > 0 {
        assert(selected(Some(p))(l[0]));
        assert(l.contains(l[0]));
        r.lemma_filter_contains_rev(selected(Some(p)), l[0]);
        let i = choose|i: int| 0 <= i < r.len() && r[i] == l[0];
        assert(not_under(p)(r[i]));
    }
    assert forall|e: EntryView| #[trigger] r.contains(e) <==> s.contains(e) && !is_prefix(p, e.0) by {
        if r.contains(e) {
            s.lemma_filter_contains_rev(not_under(p), e);
            let i = choose|i: int| 0 <= i < r.len() && r[i] == e;
            assert(not_under(p)(r[i]));
        }
        if s.contains(e) && !is_prefix(p, e.0) {
            let i = choose|i: int| 0 <= i < s.len() && s[i] == e;
            assert(r.contains(s[i]));
        }
    }
}

/// A hierarchical store of secrets: entries kept in ascending key order.
#[derive(Debug)]
pub struct Store {
    entries: Vec<(PathKey, String)>,
}

impl View for Store {
    type V = Seq<EntryView>;

    closed spec fn view(&self) -> Seq<EntryView> {
        entries_view(self.entries@)
    }
}

impl Store {
    /// Keys ascend and are normalized.
    pub open spec fn wf(&self) -> bool {
        sorted(self@) && all_valid(self@)
    }

    /// An empty store.
    pub fn new() -> (r: Store)
        ensures
            r@ == Seq::<EntryView>::empty(),
            r.wf(),
    {
        let r = Store { entries: Vec::new() };
        assert(r@ =~= Seq::<EntryView>::empty());
        r
    }

    /// The entry at position `i` in key order.
    pub fn entry_at(&self, i: usize) -> (r: (&PathKey, &String))
        requires
            i < self@.len(),
        ensures
            (r.0@, r.1@) == self@[i as int],
    {
        let e = &self.entries[i];
        (&e.0, &e.1)
    }

    /// The number of entries.
    pub fn len(&self) -> (r: usize)
        ensures
            r == self@.len(),
    {
        self.entries.len()
    }

    /// Copies of the entries that `prefix` selects, in store order.
    fn select(&self, prefix: Option<&PathKey>) -> (r: Vec<(PathKey, String)>)
        ensures
            entries_view(r@) == self@.filter(selected(
                match prefix {
                    None => None,
                    Some(p) => Some(p@),
                },
            )),
    {
        let ghost p = match prefix {
            None => None,
            Some(p) => Some(p@),
        };
        let ghost f = selected(p);
        let mut out: Vec<(PathKey, String)> = Vec::new();
        let mut i: usize = 0;
        assert(self@.take(0) =~= Seq::<EntryView>::empty());
        proof {
            reveal(Seq::filter);
        }
        assert(entries_view(out@) =~= self@.take(0).filter(f));
        while i < self.entries.len()
            invariant
                i <= self@.len(),
                self@.len() == self.entries@.len(),
                entries_view(out@) == self@.take(i as int).filter(f),
                f == selected(p),
                p == match prefix {
                    None => None,
                    Some(q) => Some(q@),
                },
            decreases self@.len() - i,
        {
            let e = &self.entries[i];
            let take = match prefix {
                None => true,
                Some(q) => q.is_ancestor_of(&e.0),
            };
            proof {
                reveal(Seq::filter);
                assert(self@[i as int] == (e.0@, e.1@));
                assert(self@.take(i + 1).drop_last() =~= self@.take(i as int));
                assert(self@.take(i + 1).last() == self@[i as int]);
                assert(f(self@[i as int]) == selects(p, self@[i as int]));
            }
            if take {
                out.push((e.0.clone(), e.1.clone()));
                assert(entries_view(out@) =~= self@.take(i as int).filter(f).push(self@[i as int]));
            }
            i = i + 1;
        }
        assert(self@.take(i as int) =~= self@);
        out
    }

    /// The entries at `start` or below it, in ascending key order; every entry
    /// when `start` is `None`. A raw `start` with a `..` segment is refused.
    pub fn list(&self, start: Option<&str>) -> (r: Result<Vec<(PathKey, String)>, Error>)
        ensures
            start is None ==> (r matches Ok(v) && entries_view(v@) == self@),
            start matches Some(raw) ==> (has_parent_step(raw@) <==> r is Err),
            start matches Some(raw) ==> (r matches Err(e) ==> (e matches Error::InvalidPath(t)
                && t@ == raw@)),
            r matches Ok(v) ==> entries_view(v@) == self@.filter(
                selected(normalized_opt(start)),
            ),
    {
        match start {
            None => {
                let v = self.select(None);
                proof {
                    lemma_filter_all(self@, selected(None));
                }
                Ok(v)
            },
            Some(raw) => {
                let p = PathKey::normalize(raw)?;
                Ok(self.select(Some(&p)))
            },
        }
    }

    /// The keys of `list(start)`, in the same order.
    pub fn list_paths(&self, start: Option<&str>) -> (r: Result<Vec<PathKey>, Error>)
        ensures
            start matches Some(raw) ==> (has_parent_step(raw@) <==> r is Err),
            start matches Some(raw) ==> (r matches Err(e) ==> (e matches Error::InvalidPath(t)
                && t@ == raw@)),
            start is None ==> r is Ok,
            r matches Ok(v) ==> keys_view(v@) == keys_of(
                self@.filter(selected(normalized_opt(start))),
            ),
    {
        let items = self.list(start)?;
        let mut keys: Vec<PathKey> = Vec::new();
        let mut i: usize = 0;
        assert(keys_view(keys@) =~= keys_of(entries_view(items@).take(0)));
        while i < items.len()
            invariant
                i <= items@.len(),
                keys_view(keys@) == keys_of(entries_view(items@).take(i as int)),
            decreases items@.len() - i,
        {
            let k = items[i].0.clone();
            assert(k@ == items@[i as int].0@);
            let ghost before = keys@;
            keys.push(k);
            let ghost ev = entries_view(items@);
            assert(ev.take(i + 1) =~= ev.take(i as int).push(ev[i as int]));
            assert(keys_view(keys@) =~= keys_view(before).push(k@));
            assert(keys_of(ev.take(i + 1)) =~= keys_of(ev.take(i as int)).push(ev[i as int].0));
            assert(keys_view(keys@) =~= keys_of(entries_view(items@).take(i + 1)));
            i = i + 1;
        }
        assert(entries_view(items@).take(i as int) =~= entries_view(items@));
        Ok(keys)
    }

    /// The secret stored at exactly `key` (no prefix matching).
    pub fn get(&self, key: &PathKey) -> (r: Option<&String>)
        requires
            self.wf(),
        ensures
            r is Some == as_map(self@).contains_key(key@),
            r matches Some(v) ==> as_map(self@)[key@] == v@,
    {
        proof {
            lemma_as_map_index(self@);
        }
        let mut i: usize = 0;
        while i < self.entries.len()
            invariant
                i <= self@.len(),
                self.wf(),
                self@.len() == self.entries@.len(),
                forall|j: int| 0 <= j < i ==> self@[j].0 != key@,
            decreases self@.len() - i,
        {
            let e = &self.entries[i];
            assert(self@[i as int] == (e.0@, e.1@));
            let o = e.0.compare(key);
            if matches!(o, Ordering::Equal) {
                proof {
                    lemma_as_map_index(self@);
                    assert(e.0@ == key@);
                    assert(as_map(self@).contains_key(self@[i as int].0));
                }
                return Some(&e.1);
            }
            i = i + 1;
        }
        None
    }

    /// The normalized key for `path` together with what is stored there now,
    /// so that a caller can decide before writing whether to overwrite.
    pub fn entry(&self, path: &str) -> (r: Result<Slot, Error>)
        requires
            self.wf(),
        ensures
            has_parent_step(path@) <==> r is Err,
            r matches Err(e) ==> (e matches Error::InvalidPath(t) && t@ == path@),
            r matches Ok(slot) ==> slot.key@ == normalized(path@) && valid_key(slot.key@),
            r matches Ok(slot) ==> (slot.current is Some == as_map(self@).contains_key(
                slot.key@,
            )),
            r matches Ok(slot) ==> (slot.current matches Some(v) ==> as_map(self@)[slot.key@]
                == v@),
    {
        let key = PathKey::normalize(path)?;
        proof {
            lemma_normalized_valid(path@);
        }
        let current = match self.get(&key) {
            Some(v) => Some(v.clone()),
            None => None,
        };
        Ok(Slot { key, current })
    }

    /// Stores `value` at `key`, replacing what was there; returns the value
    /// that was replaced.
    pub fn insert(&mut self, key: PathKey, value: String) -> (r: Option<String>)
        requires
            old(self).wf(),
            valid_key(key@),
        ensures
            final(self).wf(),
            as_map(final(self)@) == as_map(old(self)@).insert(key@, value@),
            r is Some == as_map(old(self)@).contains_key(key@),
            r matches Some(v) ==> as_map(old(self)@)[key@] == v@,
    {
        let ghost s = self@;
        let ghost k = key@;
        let ghost v = value@;
        proof {
            lemma_as_map_index(s);
        }
        let n = self.entries.len();
        let mut i: usize = 0;
        let mut found = false;
        let mut stop = false;
        while i < n && !stop
            invariant
                n == s.len(),
                s == self@,
                sorted(s),
                k == key@,
                self@.len() == self.entries@.len(),
                i <= n,
                forall|j: int| 0 <= j < i ==> key_lt(#[trigger] s[j].0, k),
                stop ==> i < n,
                stop && found ==> s[i as int].0 == k,
                stop && !found ==> key_lt(k, s[i as int].0),
                !stop ==> !found,
            decreases 2 * (n - i) + (if stop { 0int } else { 1int }),
        {
            let o = self.entries[i].0.compare(&key);
            assert(s[i as int].0 == self.entries@[i as int].0@);
            match o {
                Ordering::Less => {
                    i = i + 1;
                },
                Ordering::Equal => {
                    found = true;
                    stop = true;
                },
                Ordering::Greater => {
                    stop = true;
                },
            }
        }
        proof {
            lemma_as_map_index(s);
        }
        if found {
            let old_entry = self.entries.remove(i);
            assert(old_entry.1@ == s[i as int].1 && old_entry.0@ == k);
            assert(as_map(s).contains_key(s[i as int].0));
            self.entries.insert(i, (key, value));
            proof {
                assert(self@ =~= s.update(i as int, (k, v)));
                lemma_map_of_replace(s, self@, k, v, i as int);
            }
            Some(old_entry.1)
        } else {
            self.entries.insert(i, (key, value));
            proof {
                let t = self@;
                assert(t =~= s.insert(i as int, (k, v)));
                if i < n {
                    assert(key_lt(k, s[i as int].0));
                }
                assert forall|a: int, b: int| 0 <= a < b < t.len() implies key_lt(
                    #[trigger] t[a].0,
                    #[trigger] t[b].0,
                ) by {
                    if b < i {
                    } else if b == i {
                    } else if a < i {
                        if b - 1 > i {
                            lemma_key_lt_transitive(k, s[i as int].0, s[b - 1].0);
                        }
                        lemma_key_lt_transitive(t[a].0, k, t[b].0);
                    } else if a == i {
                        if b - 1 > i {
                            lemma_key_lt_transitive(k, s[i as int].0, s[b - 1].0);
                        }
                    } else {
                        assert(t[a] == s[a - 1] && t[b] == s[b - 1]);
                    }
                }
                assert forall|j: int| 0 <= j < s.len() implies s[j].0 != k by {
                    if j < i {
                        lemma_key_lt_irreflexive(k);
                    } else {
                        if j > i {
                            lemma_key_lt_transitive(k, s[i as int].0, s[j].0);
                        }
                        lemma_key_lt_irreflexive(k);
                    }
                }
                lemma_map_of_add(s, t, k, v, i as int);
            }
            None
        }
    }

    /// Removes every entry at `start` or below it; returns how many went.
    /// A raw `start` with a `..` segment is refused and nothing changes.
    pub fn remove(&mut self, start: &str) -> (r: Result<usize, Error>)
        requires
            old(self).wf(),
        ensures
            final(self).wf(),
            has_parent_step(start@) <==> r is Err,
            r matches Err(e) ==> (e matches Error::InvalidPath(t) && t@ == start@),
            r is Err ==> final(self)@ == old(self)@,
            r matches Ok(n) ==> final(self)@ == old(self)@.filter(
                not_under(normalized(start@)),
            ) && n == old(self)@.len() - final(self)@.len(),
    {
        let p = PathKey::normalize(start)?;
        let ghost f = not_under(p@);
        let mut kept: Vec<(PathKey, String)> = Vec::new();
        let mut i: usize = 0;
        proof {
            reveal(Seq::filter);
        }
        assert(entries_view(kept@) =~= self@.take(0).filter(f));
        while i < self.entries.len()
            invariant
                i <= self@.len(),
                self@.len() == self.entries@.len(),
                entries_view(kept@) == self@.take(i as int).filter(f),
                f == not_under(p@),
            decreases self@.len() - i,
        {
            let e = &self.entries[i];
            let inside = p.is_ancestor_of(&e.0);
            proof {
                reveal(Seq::filter);
                assert(self@[i as int] == (e.0@, e.1@));
                assert(self@.take(i + 1).drop_last() =~= self@.take(i as int));
                assert(self@.take(i + 1).last() == self@[i as int]);
            }
            if !inside {
                kept.push((e.0.clone(), e.1.clone()));
                assert(entries_view(kept@) =~= self@.take(i as int).filter(f).push(
                    self@[i as int],
                ));
            }
            i = i + 1;
        }
        assert(self@.take(i as int) =~= self@);
        let ghost s = self@;
        let removed = self.entries.len() - kept.len();
        proof {
            s.lemma_filter_len(f);
            lemma_filter_sorted(s, f);
            lemma_filter_from(s, f);
            assert forall|j: int| 0 <= j < s.filter(f).len() implies valid_key(
                #[trigger] s.filter(f)[j].0,
            ) by {
                let k = choose|k: int| 0 <= k < s.len() && s[k] == s.filter(f)[j];
                assert(valid_key(s[k].0));
            }
        }
        self.entries = kept;
        Ok(removed)
    }
}

impl Clone for Store {
    fn clone(&self) -> (r: Self)
        ensures
            r@ == self@,
    {
        let mut entries: Vec<(PathKey, String)> = Vec::new();
        let mut i: usize = 0;
        assert(entries_view(entries@) =~= self@.take(0));
        while i < self.entries.len()
            invariant
                i <= self@.len(),
                self@.len() == self.entries@.len(),
                entries_view(entries@) == self@.take(i as int),
            decreases self@.len() - i,
        {
            let e = &self.entries[i];
            let ghost before = entries@;
            let k = e.0.clone();
            let v = e.1.clone();
            assert((k@, v@) == self@[i as int]);
            entries.push((k, v));
            assert(entries_view(entries@) =~= entries_view(before).push((k@, v@)));
            assert(self@.take(i + 1) =~= self@.take(i as int).push(self@[i as int]));
            i = i + 1;
        }
        assert(self@.take(i as int) =~= self@);
        Store { entries }
    }
}

impl Default for Store {
    fn default() -> (r: Store)
        ensures
            r@ == Seq::<EntryView>::empty(),
            r.wf(),
    {
        Store::new()
    }
}

impl PartialEq for Store {
    /// Two stores are equal when they hold the same keys with the same secrets.
    fn eq(&self, other: &Store) -> (r: bool) {
        if self.entries.len() != other.entries.len() {
            return false;
        }
        let mut i: usize = 0;
        while i < self.entries.len()
            invariant
                i <= self@.len(),
                self@.len() == self.entries@.len(),
                other@.len() == other.entries@.len(),
                self@.len() == other@.len(),
                self@.take(i as int) == other@.take(i as int),
            decreases self@.len() - i,
        {
            let a = &self.entries[i];
            let b = &other.entries[i];
            assert(self@[i as int] == (a.0@, a.1@) && other@[i as int] == (b.0@, b.1@));
            let same_key = matches!(a.0.compare(&b.0), Ordering::Equal);
            if !same_key || a.1 != b.1 {
                proof {
                    if self@ == other@ {
                        assert(self@[i as int] == other@[i as int]);
                    }
                }
                return false;
            }
            assert(self@.take(i + 1) =~= self@.take(i as int).push(self@[i as int]));
            assert(other@.take(i + 1) =~= other@.take(i as int).push(other@[i as int]));
            i = i + 1;
        }
        assert(self@.take(i as int) =~= self@);
        assert(other@.take(i as int) =~= other@);
        true
    }
}

impl vstd::std_specs::cmp::PartialEqSpecImpl for Store {
    open spec fn obeys_eq_spec() -> bool {
        true
    }

    open spec fn eq_spec(&self, other: &Store) -> bool {
        self@ == other@
    }
}

impl Eq for Store {

}

/// What `Store::entry` hands back: the normalized key and the value now
/// stored there, if any.
#[derive(Debug)]
pub struct Slot {
    pub key: PathKey,
    pub current: Option<String>,
}

/// Replacing the value of an existing key updates the map at that key.
proof fn lemma_map_of_replace(
    s: Seq<EntryView>,
    t: Seq<EntryView>,
    k: Seq<Seq<char>>,
    v: Seq<char>,
    i: int,
)
    requires
        sorted(s),
        0 <= i < s.len(),
        s[i].0 == k,
        t == s.update(i, (k, v)),
    ensures
        sorted(t),
        as_map(t) == as_map(s).insert(k, v),
{
    assert(sorted(t)) by {
        assert forall|a: int, b: int| 0 <= a < b < t.len() implies key_lt(
            #[trigger] t[a].0,
            #[trigger] t[b].0,
        ) by {
            assert(t[a].0 == s[a].0 && t[b].0 == s[b].0);
        }
    }
    lemma_as_map_index(s);
    lemma_as_map_index(t);
    assert(t[i] == (k, v));
    assert forall|j: int| 0 <= j < s.len() && s[j].0 != k implies t.contains(s[j]) by {
        assert(t[j] == s[j]);
    }
    assert forall|j: int| 0 <= j < t.len() && t[j].0 != k implies s.contains(t[j]) by {
        assert(t[j] == s[j]);
    }
    lemma_map_of_same(s, t, k, v);
}

/// Inserting a new key at its place extends the map by that key.
proof fn lemma_map_of_add(s: Seq<EntryView>, t: Seq<EntryView>, k: Seq<Seq<char>>, v: Seq<char>, i: int)
    requires
        sorted(s),
        sorted(t),
        0 <= i <= s.len(),
        t == s.insert(i, (k, v)),
    ensures
        as_map(t) == as_map(s).insert(k, v),
{
    lemma_as_map_index(s);
    lemma_as_map_index(t);
    assert(t[i] == (k, v));
    assert forall|j: int| 0 <= j < s.len() && s[j].0 != k implies t.contains(s[j]) by {
        if j < i {
            assert(t[j] == s[j]);
        } else {
            assert(t[j + 1] == s[j]);
        }
    }
    assert forall|j: int| 0 <= j < t.len() && t[j].0 != k implies s.contains(t[j]) by {
        if j < i {
            assert(t[j] == s[j]);
        } else if j > i {
            assert(t[j] == s[j - 1]);
        }
    }
    lemma_map_of_same(s, t, k, v);
}

/// Two sorted sequences that agree on every key but `k`, where the second
/// holds `(k, v)`, have maps that differ by that one insertion.
proof fn lemma_map_of_same(s: Seq<EntryView>, t: Seq<EntryView>, k: Seq<Seq<char>>, v: Seq<char>)
    requires
        sorted(s),
        sorted(t),
        t.contains((k, v)),
        forall|j: int| 0 <= j < s.len() && s[j].0 != k ==> t.contains(s[j]),
        forall|j: int| 0 <= j < t.len() && t[j].0 != k ==> s.contains(t[j]),
    ensures
        as_map(t) == as_map(s).insert(k, v),
{
    lemma_as_map_index(s);
    lemma_as_map_index(t);
    let m = as_map(s).insert(k, v);
    assert forall|x: Seq<Seq<char>>| #[trigger] as_map(t).contains_key(x) implies m.contains_key(x)
        && as_map(t)[x] == m[x] by {
        let j = choose|j: int| 0 <= j < t.len() && t[j].0 == x;
        if x != k {
            let l = choose|l: int| 0 <= l < s.len() && s[l] == t[j];
            assert(as_map(s).contains_key(s[l].0));
        } else {
            let l = choose|l: int| 0 <= l < t.len() && t[l] == (k, v);
            assert(as_map(t).contains_key(t[l].0));
            if l != j {
                if l < j {
                    lemma_key_lt_irreflexive(k);
                } else {
                    lemma_key_lt_irreflexive(k);
                }
            }
        }
    }
    assert forall|x: Seq<Seq<char>>| #[trigger] m.contains_key(x) implies as_map(t).contains_key(x) by {
        if x != k {
            let j = choose|j: int| 0 <= j < s.len() && s[j].0 == x;
            let l = choose|l: int| 0 <= l < t.len() && t[l] == s[j];
            assert(as_map(t).contains_key(t[l].0));
        } else {
            let l = choose|l: int| 0 <= l < t.len() && t[l] == (k, v);
            assert(as_map(t).contains_key(t[l].0));
        }
    }
    assert(as_map(t) =~= m);
}

} // verus!
