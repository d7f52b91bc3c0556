use vstd::prelude::*;

use crate::error::Error;
use crate::json::{
    json_object_pretty_text, json_object_read, json_object_text, read_object, text_pairs,
    write_object, write_object_pretty, TextPair,
};
use crate::path::{
    has_parent_step, join, key_lt, lemma_key_lt_asymmetric, lemma_key_lt_irreflexive,
    lemma_normalized_join, lemma_normalized_valid, normalized, PathKey,
};
use crate::store::{
    all_valid, as_map, distinct_keys, lemma_as_map_index, lemma_as_map_pairs,
    lemma_sorted_distinct, sorted, EntryView, Store,
};

verus! {

/// The entries as the text pairs of the persisted form: each key's text and
/// its secret.
pub open spec fn serial_pairs(s: Seq<EntryView>) -> Seq<TextPair> {
    s.map_values(|e: EntryView| (join(e.0), e.1))
}

/// Some key text holds a `..` segment.
pub open spec fn has_parent_key(p: Seq<TextPair>) -> bool {
    exists|i: int| 0 <= i < p.len() && has_parent_step(#[trigger] p[i].0)
}

/// Text pairs with their keys normalized.
pub open spec fn normalize_keys(p: Seq<TextPair>) -> Seq<EntryView> {
    p.map_values(|q: TextPair| (normalized(q.0), q.1))
}

/// Two sorted sequences with the same map are the same sequence.
pub proof fn lemma_sorted_unique(a: Seq<EntryView>, b: Seq<EntryView>)
    requires
        sorted(a),
        sorted(b),
        as_map(a) == as_map(b),
    ensures
        a == b,
    decreases a.len() + b.len(),
{
    lemma_as_map_index(a);
    lemma_as_map_index(b);
    if a.len() == 0 || b.len() == 0 {
        if a.len() > 0 {
            assert(as_map(a).contains_key(a[0].0));
        }
        if b.len() > 0 {
            assert(as_map(b).contains_key(b[0].0));
        }
        assert(a =~= b);
    } else {
        let la = a.last().0;
        let lb = b.last().0;
        assert(as_map(a).contains_key(a[a.len() - 1].0));
        assert(as_map(b).contains_key(b[b.len() - 1].0));
        let j = choose|j: int| 0 <= j < b.len() && b[j].0 == la;
        let k = choose|k: int| 0 <= k < a.len() && a[k].0 == lb;
        if j < b.len() - 1 {
            assert(key_lt(la, lb));
            if k < a.len() - 1 {
                assert(key_lt(lb, la));
                lemma_key_lt_asymmetric(la, lb);
            } else {
                lemma_key_lt_irreflexive(la);
            }
        }
        assert(la == lb);
        assert(a.last() == b.last());
        let a1 = a.drop_last();
        let b1 = b.drop_last();
        assert(sorted(a1));
        assert(sorted(b1));
        lemma_as_map_index(a1);
        lemma_as_map_index(b1);
        assert(!as_map(a1).contains_key(la)) by {
            if as_map(a1).contains_key(la) {
                let i = choose|i: int| 0 <= i < a1.len() && a1[i].0 == la;
                assert(key_lt(a[i].0, a[a.len() - 1].0));
                lemma_key_lt_irreflexive(la);
            }
        }
        assert(!as_map(b1).contains_key(la)) by {
            if as_map(b1).contains_key(la) {
                let i = choose|i: int| 0 <= i < b1.len() && b1[i].0 == la;
                assert(key_lt(b[i].0, b[b.len() - 1].0));
                lemma_key_lt_irreflexive(la);
            }
        }
        assert(as_map(a) == as_map(a1).insert(la, a.last().1));
        assert(as_map(b) == as_map(b1).insert(la, b.last().1));
        assert(as_map(a1) =~= as_map(a).remove(la));
        assert(as_map(b1) =~= as_map(b).remove(la));
        lemma_sorted_unique(a1, b1);
        assert(a =~= a1.push(a.last()));
        assert(b =~= b1.push(b.last()));
    }
}

/// Distinct well-formed keys have distinct texts.
proof fn lemma_serial_distinct(st: Seq<EntryView>)
    requires
        sorted(st),
        all_valid(st),
    ensures
        distinct_keys(serial_pairs(st)),
{
    lemma_sorted_distinct(st);
    let e = serial_pairs(st);
    assert forall|i: int, j: int| 0 <= i < j < e.len() implies #[trigger] e[i].0
        != #[trigger] e[j].0 by {
        lemma_normalized_join(st[i].0);
        lemma_normalized_join(st[j].0);
    }
}

/// Pairs that read back as the persisted form of a store hold no `..`
/// segment, and normalizing their keys gives the store's map again.
proof fn lemma_read_back(st: Seq<EntryView>, tv: Seq<TextPair>)
    requires
        sorted(st),
        all_valid(st),
        distinct_keys(tv),
        as_map(tv) == as_map(serial_pairs(st)),
    ensures
        forall|i: int| 0 <= i < tv.len() ==> !has_parent_step(#[trigger] tv[i].0),
        as_map(normalize_keys(tv)) == as_map(st),
{
    let e = serial_pairs(st);
    lemma_serial_distinct(st);
    lemma_as_map_pairs(e);
    lemma_as_map_pairs(tv);
    lemma_as_map_index(st);
    lemma_sorted_distinct(st);
    let w = normalize_keys(tv);
    // each read key is the text of a stored key
    assert forall|i: int| 0 <= i < tv.len() implies exists|a: int|
        0 <= a < st.len() && #[trigger] tv[i].0 == join(st[a].0) && tv[i].1 == st[a].1 by {
        assert(as_map(tv).contains_key(tv[i].0));
        let a = choose|a: int| 0 <= a < e.len() && e[a].0 == tv[i].0;
        assert(as_map(e)[e[a].0] == e[a].1);
    }
    assert forall|i: int| 0 <= i < tv.len() implies !has_parent_step(#[trigger] tv[i].0) && w[i].0
        == normalized(tv[i].0) by {
        let a = choose|a: int| 0 <= a < st.len() && tv[i].0 == join(st[a].0) && tv[i].1 == st[a].1;
        lemma_normalized_join(st[a].0);
    }
    assert(distinct_keys(w)) by {
        assert forall|i: int, j: int| 0 <= i < j < w.len() implies #[trigger] w[i].0
            != #[trigger] w[j].0 by {
            let a = choose|a: int|
                0 <= a < st.len() && tv[i].0 == join(st[a].0) && tv[i].1 == st[a].1;
            let b = choose|b: int|
                0 <= b < st.len() && tv[j].0 == join(st[b].0) && tv[j].1 == st[b].1;
            lemma_normalized_join(st[a].0);
            lemma_normalized_join(st[b].0);
            if a != b && w[i].0 == w[j].0 {
                assert(st[a].0 != st[b].0);
            }
        }
    }
    lemma_as_map_pairs(w);
    assert forall|x: Seq<Seq<char>>| #[trigger] as_map(w).contains_key(x) implies as_map(
        st,
    ).contains_key(x) && as_map(w)[x] == as_map(st)[x] by {
        let i = choose|i: int| 0 <= i < w.len() && w[i].0 == x;
        let a = choose|a: int| 0 <= a < st.len() && tv[i].0 == join(st[a].0) && tv[i].1 == st[a].1;
        lemma_normalized_join(st[a].0);
    }
    assert forall|x: Seq<Seq<char>>| #[trigger] as_map(st).contains_key(x) implies as_map(
        w,
    ).contains_key(x) by {
        let a = choose|a: int| 0 <= a < st.len() && st[a].0 == x;
        assert(as_map(e).contains_key(e[a].0));
        let i = choose|i: int| 0 <= i < tv.len() && tv[i].0 == e[a].0;
        lemma_normalized_join(st[a].0);
        assert(w[i].0 == x);
    }
    assert(as_map(w) =~= as_map(st));
}

impl Store {
    /// Each key's text with its secret, in key order.
    fn serial_vec(&self) -> (r: Vec<(String, String)>)
        ensures
            text_pairs(r@) == serial_pairs(self@),
    {
        let mut pairs: Vec<(String, String)> = Vec::new();
        let mut i: usize = 0;
        let n = self.len();
        assert(text_pairs(pairs@) =~= serial_pairs(self@.take(0)));
        while i < n
            invariant
                n == self@.len(),
                i <= n,
                text_pairs(pairs@) == serial_pairs(self@.take(i as int)),
            decreases n - i,
        {
            let (k, v) = self.entry_at(i);
            let ghost before = pairs@;
            let kt = k.text();
            let vc = v.clone();
            assert((kt@, vc@) == (join(self@[i as int].0), self@[i as int].1));
            pairs.push((kt, vc));
            assert(text_pairs(pairs@) =~= text_pairs(before).push((kt@, vc@)));
            assert(self@.take(i + 1) =~= self@.take(i as int).push(self@[i as int]));
            assert(text_pairs(pairs@) =~= serial_pairs(self@.take(i + 1)));
            i = i + 1;
        }
        assert(self@.take(n as int) =~= self@);
        pairs
    }

    /// The store as one compact JSON object from each key's text to its
    /// secret.
    pub fn to_json(&self) -> (r: String)
        ensures
            r@ == json_object_text(serial_pairs(self@)),
    {
        let pairs = self.serial_vec();
        match write_object(&pairs) {
            Ok(t) => t,
            Err(_) => String::new(),
        }
    }

    /// The same JSON object, pretty-printed.
    pub fn to_json_pretty(&self) -> (r: String)
        ensures
            r@ == json_object_pretty_text(serial_pairs(self@)),
    {
        let pairs = self.serial_vec();
        match write_object_pretty(&pairs) {
            Ok(t) => t,
            Err(_) => String::new(),
        }
    }

    /// A store from key text and secret pairs: keys are normalized, a later
    /// pair wins a shared key, and a key with a `..` segment is refused.
    pub fn from_pairs(pairs: &Vec<(String, String)>) -> (r: Result<Store, Error>)
        ensures
            r is Err <==> exists|i: int|
                0 <= i < pairs@.len() && has_parent_step(#[trigger] pairs@[i].0@),
            r matches Err(e) ==> (e matches Error::InvalidPath(t) && has_parent_step(t@)),
            r matches Ok(st) ==> st.wf() && as_map(st@) == as_map(
                normalize_keys(text_pairs(pairs@)),
            ),
    {
        let ghost tp = text_pairs(pairs@);
        let mut st = Store::new();
        let mut i: usize = 0;
        assert(normalize_keys(tp.take(0)) =~= Seq::<EntryView>::empty());
        while i < pairs.len()
            invariant
                tp == text_pairs(pairs@),
                i <= pairs@.len(),
                st.wf(),
                as_map(st@) == as_map(normalize_keys(tp.take(i as int))),
                forall|j: int| 0 <= j < i ==> !has_parent_step(#[trigger] pairs@[j].0@),
            decreases pairs@.len() - i,
        {
            let key = match PathKey::normalize(pairs[i].0.as_str()) {
                Ok(k) => k,
                Err(e) => {
                    return Err(e);
                },
            };
            proof {
                lemma_normalized_valid(pairs@[i as int].0@);
            }
            st.insert(key, pairs[i].1.clone());
            proof {
                let w = normalize_keys(tp.take(i + 1));
                assert(w.drop_last() =~= normalize_keys(tp.take(i as int)));
                assert(w.last() == (normalized(pairs@[i as int].0@), pairs@[i as int].1@));
            }
            i = i + 1;
        }
        assert(tp.take(i as int) =~= tp);
        Ok(st)
    }

    /// A store read from its JSON form: the pairs that serde_json reads
    /// from the text, keys normalized. Text that is not an object of strings
    /// is `Serde`; a key with a `..` segment is `InvalidPath`. Either form
    /// that `to_json` or `to_json_pretty` writes for a store reads back as
    /// that same store.
    pub fn from_json(text: &str) -> (r: Result<Store, Error>)
        ensures
            json_object_read(text@) is None ==> (r matches Err(e) && e is Serde),
            json_object_read(text@) matches Some(p) ==> (r is Err <==> has_parent_key(p)),
            json_object_read(text@) is Some ==> (r matches Err(e) ==> (e matches Error::InvalidPath(
                t,
            ) && has_parent_step(t@))),
            json_object_read(text@) matches Some(p) ==> (r matches Ok(st) ==> st.wf() && as_map(
                st@,
            ) == as_map(normalize_keys(p))),
            forall|st: Seq<EntryView>|
                sorted(st) && all_valid(st) && #[trigger] json_object_text(serial_pairs(st))
                    == text@ ==> (r matches Ok(out) && out@ == st),
            forall|st: Seq<EntryView>|
                sorted(st) && all_valid(st) && #[trigger] json_object_pretty_text(serial_pairs(st))
                    == text@ ==> (r matches Ok(out) && out@ == st),
    {
        let read = read_object(text);
        let r = match read {
            Ok(v) => Store::from_pairs(&v),
            Err(m) => Err(Error::Serde(m)),
        };
        proof {
            if read is Ok {
                let v = read->Ok_0;
                let p = text_pairs(v@);
                assert(json_object_read(text@) == Some(p));
                assert(p.len() == v@.len());
                if r is Err {
                    let i = choose|i: int| 0 <= i < v@.len() && has_parent_step(#[trigger] v@[i].0@);
                    assert(p[i] == (v@[i].0@, v@[i].1@));
                    assert(has_parent_step(p[i].0));
                    assert(has_parent_key(p));
                }
                if has_parent_key(p) {
                    let i = choose|i: int| 0 <= i < p.len() && has_parent_step(#[trigger] p[i].0);
                    assert(p[i] == (v@[i].0@, v@[i].1@));
                    assert(has_parent_step(v@[i].0@));
                    assert(r is Err);
                }
            }
            assert forall|st: Seq<EntryView>|
                sorted(st) && all_valid(st) && #[trigger] json_object_text(serial_pairs(st))
                    == text@ implies (r matches Ok(out) && out@ == st) by {
                lemma_serial_distinct(st);
                assert(read is Ok);
                lemma_from_read(st, read->Ok_0, r);
            }
            assert forall|st: Seq<EntryView>|
                sorted(st) && all_valid(st) && #[trigger] json_object_pretty_text(serial_pairs(st))
                    == text@ implies (r matches Ok(out) && out@ == st) by {
                lemma_serial_distinct(st);
                assert(read is Ok);
                lemma_from_read(st, read->Ok_0, r);
            }
        }
        r
    }
}

/// Pairs read back from a store's persisted form build that same store.
proof fn lemma_from_read(st: Seq<EntryView>, v: Vec<(String, String)>, r: Result<Store, Error>)
    requires
        sorted(st),
        all_valid(st),
        distinct_keys(text_pairs(v@)),
        as_map(text_pairs(v@)) == as_map(serial_pairs(st)),
        r is Err <==> exists|i: int| 0 <= i < v@.len() && has_parent_step(#[trigger] v@[i].0@),
        r matches Ok(out) ==> out.wf() && as_map(out@) == as_map(normalize_keys(text_pairs(v@))),
    ensures
        r matches Ok(out) && out@ == st,
{
    let tv = text_pairs(v@);
    lemma_read_back(st, tv);
    assert forall|i: int| 0 <= i < v@.len() implies !has_parent_step(#[trigger] v@[i].0@) by {
        assert(tv[i].0 == v@[i].0@);
    }
    let out = r->Ok_0;
    lemma_sorted_unique(out@, st);
}

} // verus!
