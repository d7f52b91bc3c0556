use vstd::prelude::*;

use crate::error::Error;
use std::cmp::Ordering;

verus! {

/// The pieces of `s` between `/` separators, empty pieces included
/// (`"a//b"` gives `a`, the empty piece, `b`; `""` gives one empty piece).
pub open spec fn split_slash(s: Seq<char>) -> Seq<Seq<char>>
    decreases s.len(),
{
    if s.len() == 0 {
        seq![Seq::empty()]
    } else {
        let p = split_slash(s.drop_last());
        if s.last() == '/' {
            p.push(Seq::empty())
        } else {
            p.update(p.len() - 1, p.last().push(s.last()))
        }
    }
}

pub open spec fn dot() -> Seq<char> {
    seq!['.']
}

pub open spec fn dot_dot() -> Seq<char> {
    seq!['.', '.']
}

/// A piece that names a real level of the hierarchy: neither empty nor `.`.
pub open spec fn is_named(piece: Seq<char>) -> bool {
    piece.len() > 0 && piece != dot()
}

/// The named pieces, in order.
pub open spec fn keep_named(pieces: Seq<Seq<char>>) -> Seq<Seq<char>>
    decreases pieces.len(),
{
    if pieces.len() == 0 {
        Seq::empty()
    } else {
        let rest = keep_named(pieces.drop_last());
        if is_named(pieces.last()) {
            rest.push(pieces.last())
        } else {
            rest
        }
    }
}

/// The raw text holds a segment that means "go to the parent".
pub open spec fn has_parent_step(raw: Seq<char>) -> bool {
    split_slash(raw).contains(dot_dot())
}

/// The segments of a raw path once `.` and empty segments are dropped.
pub open spec fn normalized(raw: Seq<char>) -> Seq<Seq<char>> {
    keep_named(split_slash(raw))
}

/// A segment of a normalized key: named, not `..`, and free of separators.
pub open spec fn valid_segment(s: Seq<char>) -> bool {
    &&& is_named(s)
    &&& s != dot_dot()
    &&& !s.contains('/')
}

pub open spec fn valid_key(k: Seq<Seq<char>>) -> bool {
    forall|i: int| 0 <= i < k.len() ==> valid_segment(#[trigger] k[i])
}

/// Lexicographic order on text, character by character (the order of the
/// UTF-8 bytes); a proper prefix comes first.
pub open spec fn text_lt(a: Seq<char>, b: Seq<char>) -> bool
    decreases a.len(),
{
    if a.len() == 0 {
        b.len() > 0
    } else if b.len() == 0 {
        false
    } else if a[0] == b[0] {
        text_lt(a.drop_first(), b.drop_first())
    } else {
        (a[0] as int) < (b[0] as int)
    }
}

/// Key order: lexicographic over segments, each compared by `text_lt`;
/// an ancestor comes before its descendants.
pub open spec fn key_lt(a: Seq<Seq<char>>, b: Seq<Seq<char>>) -> bool
    decreases a.len(),
{
    if a.len() == 0 {
        b.len() > 0
    } else if b.len() == 0 {
        false
    } else if a[0] == b[0] {
        key_lt(a.drop_first(), b.drop_first())
    } else {
        text_lt(a[0], b[0])
    }
}

/// `a`'s segments are the leading segments of `b` (a key is its own ancestor).
pub open spec fn is_prefix(a: Seq<Seq<char>>, b: Seq<Seq<char>>) -> bool {
    a.len() <= b.len() && b.take(a.len() as int) == a
}

/// The number of leading segments that `a` and `b` share.
pub open spec fn common_len(a: Seq<Seq<char>>, b: Seq<Seq<char>>) -> nat
    decreases a.len(),
{
    if a.len() == 0 || b.len() == 0 || a[0] != b[0] {
        0
    } else {
        1 + common_len(a.drop_first(), b.drop_first())
    }
}

/// The segments joined by `/`.
pub open spec fn join(k: Seq<Seq<char>>) -> Seq<char>
    decreases k.len(),
{
    if k.len() == 0 {
        Seq::empty()
    } else if k.len() == 1 {
        k[0]
    } else {
        join(k.drop_last()) + seq!['/'] + k.last()
    }
}

pub proof fn lemma_text_lt_irreflexive(a: Seq<char>)
    ensures
        !text_lt(a, a),
    decreases a.len(),
{
    if a.len() > 0 {
        lemma_text_lt_irreflexive(a.drop_first());
    }
}

pub proof fn lemma_text_lt_transitive(a: Seq<char>, b: Seq<char>, c: Seq<char>)
    requires
        text_lt(a, b),
        text_lt(b, c),
    ensures
        text_lt(a, c),
    decreases a.len(),
{
    if a.len() > 0 && b.len() > 0 && c.len() > 0 && a[0] == b[0] && b[0] == c[0] {
        lemma_text_lt_transitive(a.drop_first(), b.drop_first(), c.drop_first());
    }
}

pub proof fn lemma_key_lt_irreflexive(a: Seq<Seq<char>>)
    ensures
        !key_lt(a, a),
    decreases a.len(),
{
    if a.len() > 0 {
        lemma_key_lt_irreflexive(a.drop_first());
    }
}

pub proof fn lemma_key_lt_transitive(a: Seq<Seq<char>>, b: Seq<Seq<char>>, c: Seq<Seq<char>>)
    requires
        key_lt(a, b),
        key_lt(b, c),
    ensures
        key_lt(a, c),
    decreases a.len(),
{
    if a.len() > 0 && b.len() > 0 && c.len() > 0 {
        if a[0] == b[0] && b[0] == c[0] {
            lemma_key_lt_transitive(a.drop_first(), b.drop_first(), c.drop_first());
        } else if a[0] != b[0] && b[0] != c[0] {
            lemma_text_lt_transitive(a[0], b[0], c[0]);
            if a[0] == c[0] {
                lemma_text_lt_irreflexive(a[0]);
                lemma_text_lt_transitive(b[0], c[0], b[0]);
                lemma_text_lt_irreflexive(b[0]);
            }
        }
    }
}

pub proof fn lemma_key_lt_asymmetric(a: Seq<Seq<char>>, b: Seq<Seq<char>>)
    requires
        key_lt(a, b),
    ensures
        !key_lt(b, a),
{
    if key_lt(b, a) {
        lemma_key_lt_transitive(a, b, a);
        lemma_key_lt_irreflexive(a);
    }
}

/// The text of each string, in order.
pub open spec fn strings_view(v: Seq<String>) -> Seq<Seq<char>> {
    v.map_values(|s: String| s@)
}

/// A hierarchical store key: the segments of a normalized relative path.
#[derive(Debug)]
pub struct PathKey {
    segs: Vec<String>,
}

impl View for PathKey {
    type V = Seq<Seq<char>>;

    closed spec fn view(&self) -> Seq<Seq<char>> {
        strings_view(self.segs@)
    }
}

impl PathKey {
    /// Splits raw text on `/`, drops empty and `.` segments, and refuses any
    /// `..` segment with `InvalidPath` carrying the raw text.
    pub fn normalize(raw: &str) -> (r: Result<PathKey, Error>)
        ensures
            has_parent_step(raw@) <==> r is Err,
            r matches Err(e) ==> e matches Error::InvalidPath(t) && t@ == raw@,
            r matches Ok(k) ==> k@ == normalized(raw@) && valid_key(k@),
    {
        let n = raw.unicode_len();
        let mut out: Vec<String> = Vec::new();
        let mut bad = false;
        let mut start: usize = 0;
        let mut i: usize = 0;
        let ghost mut done: Seq<Seq<char>> = Seq::empty();
        assert(raw@.take(0) =~= Seq::<char>::empty());
        assert(raw@.subrange(0, 0) =~= Seq::<char>::empty());
        while i < n
            invariant
                n == raw@.len(),
                start <= i <= n,
                split_slash(raw@.take(i as int)) == done.push(raw@.subrange(start as int, i as int)),
                keep_named(done) == strings_view(out@),
                bad <==> done.contains(dot_dot()),
            decreases n - i,
        {
            let c = raw.get_char(i);
            proof {
                assert(raw@.take(i + 1).drop_last() =~= raw@.take(i as int));
            }
            if c == '/' {
                let ghost piece = raw@.subrange(start as int, i as int);
                let step_bad = Self::take_piece(raw, start, i, &mut out);
                proof {
                    lemma_contains_push(done, piece, dot_dot());
                    assert(done.push(piece).drop_last() =~= done);
                    done = done.push(piece);
                    assert(raw@.subrange(i + 1, i + 1) =~= Seq::<char>::empty());
                }
                bad = bad || step_bad;
                start = i + 1;
            } else {
                proof {
                    assert(raw@.subrange(start as int, i + 1) =~= raw@.subrange(
                        start as int,
                        i as int,
                    ).push(c));
                }
            }
            i = i + 1;
        }
        proof {
            assert(raw@.take(n as int) =~= raw@);
            lemma_contains_push(done, raw@.subrange(start as int, n as int), dot_dot());
            assert(done.push(raw@.subrange(start as int, n as int)).drop_last() =~= done);
        }
        let last_bad = Self::take_piece(raw, start, n, &mut out);
        if bad || last_bad {
            Err(Error::InvalidPath(raw.to_owned()))
        } else {
            proof {
                lemma_normalized_valid(raw@);
            }
            Ok(PathKey { segs: out })
        }
    }

    /// Appends the piece `raw[start..end]` to `out` when it is named, and
    /// reports whether it is `..`.
    fn take_piece(raw: &str, start: usize, end: usize, out: &mut Vec<String>) -> (is_parent: bool)
        requires
            start <= end <= raw@.len(),
        ensures
            ({
                let piece = raw@.subrange(start as int, end as int);
                &&& is_parent == (piece == dot_dot())
                &&& strings_view(final(out)@) == if is_named(piece) {
                    strings_view(old(out)@).push(piece)
                } else {
                    strings_view(old(out)@)
                }
            }),
    {
        let ghost piece = raw@.subrange(start as int, end as int);
        let len = end - start;
        let mut is_dot = false;
        let mut is_parent = false;
        if len == 1 {
            is_dot = raw.get_char(start) == '.';
            if is_dot {
                assert(piece =~= dot());
            }
        } else if len == 2 {
            let c0 = raw.get_char(start);
            let c1 = raw.get_char(start + 1);
            is_parent = c0 == '.' && c1 == '.';
            if is_parent {
                assert(piece =~= dot_dot());
            }
        }
        proof {
            if piece == dot() {
                assert(dot().len() == 1 && dot()[0] == '.');
                assert(raw@[start as int] == piece[0]);
            }
            if piece == dot_dot() {
                assert(dot_dot().len() == 2);
                assert(dot_dot()[0] == '.' && dot_dot()[1] == '.');
                assert(raw@[start as int] == piece[0]);
                assert(raw@[start + 1] == piece[1]);
            }
        }
        if len > 0 && !is_dot {
            let s = raw.substring_char(start, end).to_owned();
            out.push(s);
            proof {
                assert(strings_view(out@) =~= strings_view(old(out)@).push(piece));
            }
        }
        is_parent
    }
}

/// Three-way comparison of two texts under `text_lt`.
fn compare_text(a: &str, b: &str) -> (r: Ordering)
    ensures
        (r == Ordering::Less) == text_lt(a@, b@),
        (r == Ordering::Equal) == (a@ == b@),
        (r == Ordering::Greater) == text_lt(b@, a@),
{
    let na = a.unicode_len();
    let nb = b.unicode_len();
    let mut i: usize = 0;
    assert(a@.skip(0) =~= a@ && b@.skip(0) =~= b@);
    assert(a@.take(0) =~= b@.take(0));
    while i < na && i < nb
        invariant
            na == a@.len(),
            nb == b@.len(),
            i <= na,
            i <= nb,
            a@.take(i as int) == b@.take(i as int),
            text_lt(a@, b@) == text_lt(a@.skip(i as int), b@.skip(i as int)),
            text_lt(b@, a@) == text_lt(b@.skip(i as int), a@.skip(i as int)),
        decreases na - i,
    {
        let ca = a.get_char(i);
        let cb = b.get_char(i);
        assert(a@.skip(i as int)[0] == ca && b@.skip(i as int)[0] == cb);
        if ca != cb {
            proof {
                if a@ == b@ {
                    assert(a@[i as int] == b@[i as int]);
                }
            }
            if (ca as u32) < (cb as u32) {
                return Ordering::Less;
            } else {
                return Ordering::Greater;
            }
        }
        proof {
            assert(a@.skip(i as int).drop_first() =~= a@.skip(i + 1));
            assert(b@.skip(i as int).drop_first() =~= b@.skip(i + 1));
            assert(a@.take(i + 1) =~= a@.take(i as int).push(ca));
            assert(b@.take(i + 1) =~= b@.take(i as int).push(cb));
        }
        i = i + 1;
    }
    proof {
        if na == nb {
            assert(a@ =~= a@.take(i as int));
            assert(b@ =~= b@.take(i as int));
        } else if a@ == b@ {
            assert(a@.len() == b@.len());
        }
    }
    if na == nb {
        Ordering::Equal
    } else if i == na {
        Ordering::Less
    } else {
        Ordering::Greater
    }
}

impl PathKey {
    /// Three-way comparison under `key_lt`, the store's order.
    pub fn compare(&self, other: &PathKey) -> (r: Ordering)
        ensures
            (r == Ordering::Less) == key_lt(self@, other@),
            (r == Ordering::Equal) == (self@ == other@),
            (r == Ordering::Greater) == key_lt(other@, self@),
    {
        let na = self.segs.len();
        let nb = other.segs.len();
        let ghost a = self@;
        let ghost b = other@;
        let mut i: usize = 0;
        assert(a.skip(0) =~= a && b.skip(0) =~= b);
        assert(a.take(0) =~= b.take(0));
        while i < na && i < nb
            invariant
                a == self@,
                b == other@,
                na == a.len(),
                nb == b.len(),
                i <= na,
                i <= nb,
                a.take(i as int) == b.take(i as int),
                key_lt(a, b) == key_lt(a.skip(i as int), b.skip(i as int)),
                key_lt(b, a) == key_lt(b.skip(i as int), a.skip(i as int)),
            decreases na - i,
        {
            let o = compare_text(self.segs[i].as_str(), other.segs[i].as_str());
            assert(a.skip(i as int)[0] == a[i as int] && b.skip(i as int)[0] == b[i as int]);
            match o {
                Ordering::Equal => {},
                _ => {
                    proof {
                        if a == b {
                            assert(a[i as int] == b[i as int]);
                        }
                    }
                    return o;
                },
            }
            proof {
                assert(a.skip(i as int).drop_first() =~= a.skip(i + 1));
                assert(b.skip(i as int).drop_first() =~= b.skip(i + 1));
                assert(a.take(i + 1) =~= a.take(i as int).push(a[i as int]));
                assert(b.take(i + 1) =~= b.take(i as int).push(b[i as int]));
            }
            i = i + 1;
        }
        proof {
            if na == nb {
                assert(a =~= a.take(i as int));
                assert(b =~= b.take(i as int));
            }
            if a == b {
                assert(a.len() == b.len());
            }
        }
        if na == nb {
            Ordering::Equal
        } else if i == na {
            Ordering::Less
        } else {
            Ordering::Greater
        }
    }

    /// Whether this key's segments are the leading segments of `other`'s,
    /// compared segment by segment (`ab` is not an ancestor of `abc`).
    pub fn is_ancestor_of(&self, other: &PathKey) -> (r: bool)
        ensures
            r == is_prefix(self@, other@),
    {
        let n = self.segs.len();
        if n > other.segs.len() {
            return false;
        }
        let mut i: usize = 0;
        while i < n
            invariant
                n == self@.len(),
                n <= other@.len(),
                i <= n,
                other@.take(i as int) == self@.take(i as int),
            decreases n - i,
        {
            if self.segs[i] != other.segs[i] {
                proof {
                    assert(other@.take(n as int)[i as int] == other@[i as int]);
                    assert(self@[i as int] != other@[i as int]);
                }
                return false;
            }
            proof {
                assert(other@.take(i + 1) =~= other@.take(i as int).push(other@[i as int]));
                assert(self@.take(i + 1) =~= self@.take(i as int).push(self@[i as int]));
            }
            i = i + 1;
        }
        assert(self@.take(n as int) =~= self@);
        true
    }

    /// The longest run of leading segments that the two keys share.
    pub fn common_prefix(&self, other: &PathKey) -> (r: PathKey)
        ensures
            r@ == self@.take(common_len(self@, other@) as int),
            r@ == other@.take(common_len(self@, other@) as int),
    {
        let mut segs: Vec<String> = Vec::new();
        let mut i: usize = 0;
        assert(self@.skip(0) =~= self@ && other@.skip(0) =~= other@);
        assert(self@.take(0) =~= other@.take(0));
        assert(strings_view(segs@) =~= self@.take(0));
        while i < self.segs.len() && i < other.segs.len() && self.segs[i] == other.segs[i]
            invariant
                i <= self@.len(),
                i <= other@.len(),
                strings_view(segs@) == self@.take(i as int),
                self@.take(i as int) == other@.take(i as int),
                common_len(self@, other@) == i + common_len(self@.skip(i as int), other@.skip(i as int)),
            decreases self@.len() - i,
        {
            segs.push(self.segs[i].clone());
            proof {
                assert(self@.skip(i as int).drop_first() =~= self@.skip(i + 1));
                assert(other@.skip(i as int).drop_first() =~= other@.skip(i + 1));
                assert(self@.take(i + 1) =~= self@.take(i as int).push(self@[i as int]));
                assert(other@.take(i + 1) =~= other@.take(i as int).push(other@[i as int]));
                assert(strings_view(segs@) =~= self@.take(i + 1));
            }
            i = i + 1;
        }
        PathKey { segs }
    }

    /// The key as text: its segments joined by `/`.
    pub fn text(&self) -> (r: String)
        ensures
            r@ == join(self@),
    {
        let mut out = String::new();
        let mut i: usize = 0;
        while i < self.segs.len()
            invariant
                i <= self@.len(),
                out@ == join(self@.take(i as int)),
            decreases self@.len() - i,
        {
            proof {
                reveal_strlit("/");
                assert(self@.take(i + 1).drop_last() =~= self@.take(i as int));
            }
            if i > 0 {
                out.append("/");
            }
            out.append(self.segs[i].as_str());
            i = i + 1;
        }
        assert(self@.take(i as int) =~= self@);
        out
    }

    /// The empty key: the root of the hierarchy.
    pub fn root() -> (r: PathKey)
        ensures
            r@ == Seq::<Seq<char>>::empty(),
    {
        let r = PathKey { segs: Vec::new() };
        assert(r@ =~= Seq::<Seq<char>>::empty());
        r
    }

    /// The number of segments.
    pub fn len(&self) -> (r: usize)
        ensures
            r == self@.len(),
    {
        self.segs.len()
    }

    /// The segment at `i`.
    pub fn segment(&self, i: usize) -> (r: &str)
        requires
            i < self@.len(),
        ensures
            r@ == self@[i as int],
    {
        self.segs[i].as_str()
    }
}

impl Clone for PathKey {
    fn clone(&self) -> (r: Self)
        ensures
            r@ == self@,
    {
        let mut segs: Vec<String> = Vec::new();
        let mut i: usize = 0;
        assert(strings_view(segs@) =~= self@.take(0));
        while i < self.segs.len()
            invariant
                i <= self@.len(),
                strings_view(segs@) == self@.take(i as int),
            decreases self@.len() - i,
        {
            segs.push(self.segs[i].clone());
            assert(self@.take(i + 1) =~= self@.take(i as int).push(self@[i as int]));
            assert(strings_view(segs@) =~= self@.take(i + 1));
            i = i + 1;
        }
        assert(self@.take(i as int) =~= self@);
        PathKey { segs }
    }
}

/// No piece holds a separator.
proof fn lemma_split_no_slash(s: Seq<char>)
    ensures
        split_slash(s).len() >= 1,
        forall|i: int|
            0 <= i < split_slash(s).len() ==> !(#[trigger] split_slash(s)[i]).contains('/'),
    decreases s.len(),
{
    if s.len() > 0 {
        let p = split_slash(s.drop_last());
        lemma_split_no_slash(s.drop_last());
        if s.last() != '/' {
            let q = split_slash(s);
            assert forall|i: int| 0 <= i < q.len() implies !(#[trigger] q[i]).contains('/') by {
                if i == q.len() - 1 {
                    let l = p.last();
                    if l.push(s.last()).contains('/') {
                        let j = choose|j: int| 0 <= j < l.len() + 1 && l.push(s.last())[j] == '/';
                        assert(l[j] == '/');
                        assert(l.contains('/'));
                    }
                } else {
                    assert(q[i] == p[i]);
                }
            }
        } else {
            let q = split_slash(s);
            assert forall|i: int| 0 <= i < q.len() implies !(#[trigger] q[i]).contains('/') by {
                if i < q.len() - 1 {
                    assert(q[i] == p[i]);
                }
            }
        }
    }
}

/// The kept pieces are named pieces of the input.
proof fn lemma_keep_named_from(p: Seq<Seq<char>>)
    ensures
        forall|i: int|
            0 <= i < keep_named(p).len() ==> is_named(#[trigger] keep_named(p)[i]) && p.contains(
                keep_named(p)[i],
            ),
    decreases p.len(),
{
    if p.len() > 0 {
        let q = p.drop_last();
        lemma_keep_named_from(q);
        let k = keep_named(p);
        assert forall|i: int| 0 <= i < k.len() implies is_named(#[trigger] k[i]) && p.contains(
            k[i],
        ) by {
            if i < keep_named(q).len() {
                assert(k[i] == keep_named(q)[i]);
                let j = choose|j: int| 0 <= j < q.len() && q[j] == k[i];
                assert(p[j] == q[j]);
            } else {
                assert(p[p.len() - 1] == k[i]);
            }
        }
    }
}

/// Normalizing text without a `..` segment gives a well-formed key.
pub proof fn lemma_normalized_valid(raw: Seq<char>)
    requires
        !has_parent_step(raw),
    ensures
        valid_key(normalized(raw)),
{
    let p = split_slash(raw);
    lemma_split_no_slash(raw);
    lemma_keep_named_from(p);
    let k = normalized(raw);
    assert forall|i: int| 0 <= i < k.len() implies valid_segment(#[trigger] k[i]) by {
        let j = choose|j: int| 0 <= j < p.len() && p[j] == k[i];
        assert(p.contains(p[j]));
    }
}

/// Splitting at a separator splits the two sides independently.
proof fn lemma_split_at_slash(s: Seq<char>, t: Seq<char>)
    ensures
        split_slash(s + seq!['/'] + t) == split_slash(s) + split_slash(t),
    decreases t.len(),
{
    let u = s + seq!['/'] + t;
    if t.len() == 0 {
        assert(u.drop_last() =~= s);
        assert(split_slash(u) =~= split_slash(s) + split_slash(t));
    } else {
        let t1 = t.drop_last();
        lemma_split_at_slash(s, t1);
        lemma_split_no_slash(t1);
        assert(u.drop_last() =~= s + seq!['/'] + t1);
        assert(u.last() == t.last());
        assert(split_slash(u) =~= split_slash(s) + split_slash(t));
    }
}

/// Text without a separator is one piece.
proof fn lemma_split_plain(t: Seq<char>)
    requires
        !t.contains('/'),
    ensures
        split_slash(t) == seq![t],
    decreases t.len(),
{
    if t.len() == 0 {
        assert(t =~= Seq::<char>::empty());
        assert(split_slash(t) =~= seq![t]);
    } else {
        let t1 = t.drop_last();
        assert(!t1.contains('/')) by {
            if t1.contains('/') {
                let j = choose|j: int| 0 <= j < t1.len() && t1[j] == '/';
                assert(t[j] == '/');
            }
        }
        lemma_split_plain(t1);
        assert(t.last() != '/') by {
            assert(t[t.len() - 1] == t.last());
        }
        assert(t1.push(t.last()) =~= t);
        assert(split_slash(t) =~= seq![t]);
    }
}

proof fn lemma_split_join(k: Seq<Seq<char>>)
    requires
        valid_key(k),
        k.len() >= 1,
    ensures
        split_slash(join(k)) == k,
    decreases k.len(),
{
    if k.len() == 1 {
        assert(valid_segment(k[0]));
        lemma_split_plain(k[0]);
        assert(seq![k[0]] =~= k);
    } else {
        let k1 = k.drop_last();
        assert(valid_key(k1)) by {
            assert forall|i: int| 0 <= i < k1.len() implies valid_segment(#[trigger] k1[i]) by {
                assert(k1[i] == k[i]);
            }
        }
        lemma_split_join(k1);
        assert(valid_segment(k[k.len() - 1]));
        lemma_split_plain(k.last());
        lemma_split_at_slash(join(k1), k.last());
        assert(k1 + seq![k.last()] =~= k);
    }
}

proof fn lemma_keep_all_named(p: Seq<Seq<char>>)
    requires
        forall|i: int| 0 <= i < p.len() ==> is_named(#[trigger] p[i]),
    ensures
        keep_named(p) == p,
    decreases p.len(),
{
    if p.len() > 0 {
        let p1 = p.drop_last();
        assert forall|i: int| 0 <= i < p1.len() implies is_named(#[trigger] p1[i]) by {
            assert(p1[i] == p[i]);
        }
        lemma_keep_all_named(p1);
        assert(is_named(p[p.len() - 1]));
        assert(p1.push(p.last()) =~= p);
    }
}

/// A well-formed key's text holds no `..` segment and normalizes back to the
/// key itself.
pub proof fn lemma_normalized_join(k: Seq<Seq<char>>)
    requires
        valid_key(k),
    ensures
        !has_parent_step(join(k)),
        normalized(join(k)) == k,
{
    if k.len() == 0 {
        let e = Seq::<char>::empty();
        assert(split_slash(e) =~= seq![e]);
        assert(seq![e].drop_last() =~= Seq::<Seq<char>>::empty());
        assert(keep_named(Seq::<Seq<char>>::empty()) == Seq::<Seq<char>>::empty());
        assert(!is_named(e));
        assert(keep_named(seq![e]) =~= k);
        if seq![e].contains(dot_dot()) {
            assert(dot_dot().len() == 2);
        }
    } else {
        lemma_split_join(k);
        assert forall|i: int| 0 <= i < k.len() implies is_named(#[trigger] k[i]) by {
            assert(valid_segment(k[i]));
        }
        lemma_keep_all_named(k);
        if k.contains(dot_dot()) {
            let j = choose|j: int| 0 <= j < k.len() && k[j] == dot_dot();
            assert(valid_segment(k[j]));
        }
    }
}

/// Text without a `..` segment normalizes; the normalized key's text again
/// has no `..` segment, and normalizing that text gives the same key.
pub proof fn lemma_normalize_idempotent(raw: Seq<char>)
    requires
        !has_parent_step(raw),
    ensures
        !has_parent_step(join(normalized(raw))),
        normalized(join(normalized(raw))) == normalized(raw),
{
    lemma_normalized_valid(raw);
    lemma_normalized_join(normalized(raw));
}

proof fn lemma_contains_push<A>(s: Seq<A>, x: A, y: A)
    ensures
        s.push(x).contains(y) <==> (s.contains(y) || x == y),
{
    if s.contains(y) {
        let i = choose|i: int| 0 <= i < s.len() && s[i] == y;
        assert(s.push(x)[i] == y);
    }
    if x == y {
        assert(s.push(x)[s.len() as int] == y);
    }
    if s.push(x).contains(y) {
        let i = choose|i: int| 0 <= i < s.len() + 1 && s.push(x)[i] == y;
        if i < s.len() {
            assert(s[i] == y);
        }
    }
}

} // verus!
