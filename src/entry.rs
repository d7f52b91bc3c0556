use vstd::prelude::*;

use crate::store::as_map;

verus! {

/// The first line of a text as `str::lines` yields it: up to the first line
/// feed, without a carriage return right before it; `None` for empty text.
pub open spec fn first_line(s: Seq<char>) -> Option<Seq<char>> {
    if s.len() == 0 {
        None
    } else if exists|i: int| 0 <= i < s.len() && s[i] == '\n' {
        let i = choose|i: int|
            0 <= i < s.len() && s[i] == '\n' && forall|j: int| 0 <= j < i ==> s[j] != '\n';
        let l = s.take(i);
        Some(
            if l.len() > 0 && l.last() == '\r' {
                l.drop_last()
            } else {
                l
            },
        )
    } else {
        Some(s)
    }
}

/// A line without the carriage return that ends it, if any.
pub open spec fn strip_cr(l: Seq<char>) -> Seq<char> {
    if l.len() > 0 && l.last() == '\r' {
        l.drop_last()
    } else {
        l
    }
}

/// The characters after the last line feed.
pub open spec fn tail_piece(s: Seq<char>) -> Seq<char>
    decreases s.len(),
{
    if s.len() == 0 {
        Seq::empty()
    } else if s.last() == '\n' {
        Seq::empty()
    } else {
        tail_piece(s.drop_last()).push(s.last())
    }
}

/// The lines that a line feed ends, each without a carriage return before
/// that line feed.
pub open spec fn ended_lines(s: Seq<char>) -> Seq<Seq<char>>
    decreases s.len(),
{
    if s.len() == 0 {
        Seq::empty()
    } else if s.last() == '\n' {
        ended_lines(s.drop_last()).push(strip_cr(tail_piece(s.drop_last())))
    } else {
        ended_lines(s.drop_last())
    }
}

/// The lines of a text as `str::lines` yields them: the final line ending is
/// optional, and a final line without one keeps every character.
pub open spec fn text_lines(s: Seq<char>) -> Seq<Seq<char>> {
    if tail_piece(s).len() > 0 {
        ended_lines(s).push(tail_piece(s))
    } else {
        ended_lines(s)
    }
}

/// A line split at its first `:` into key and value; `None` without one.
pub open spec fn split_colon(l: Seq<char>) -> Option<(Seq<char>, Seq<char>)> {
    if exists|i: int| 0 <= i < l.len() && l[i] == ':' {
        let i = choose|i: int|
            0 <= i < l.len() && l[i] == ':' && forall|j: int| 0 <= j < i ==> l[j] != ':';
        Some((l.take(i), l.skip(i + 1)))
    } else {
        None
    }
}

/// The key and value of each line that has a `:`, in line order.
pub open spec fn meta_pairs(lines: Seq<Seq<char>>) -> Seq<(Seq<char>, Seq<char>)>
    decreases lines.len(),
{
    if lines.len() == 0 {
        Seq::empty()
    } else {
        let rest = meta_pairs(lines.drop_last());
        match split_colon(lines.last()) {
            Some(kv) => rest.push(kv),
            None => rest,
        }
    }
}

/// The lines after the first.
pub open spec fn after_first(ls: Seq<Seq<char>>) -> Seq<Seq<char>> {
    if ls.len() == 0 {
        ls
    } else {
        ls.drop_first()
    }
}

/// The metadata of a secret's text as a map.
pub open spec fn metadata(s: Seq<char>) -> Map<Seq<char>, Seq<char>> {
    as_map(meta_pairs(after_first(text_lines(s))))
}

pub open spec fn string_pairs_view(v: Seq<(String, String)>) -> Seq<(Seq<char>, Seq<char>)> {
    v.map_values(|p: (String, String)| (p.0@, p.1@))
}

/// The lines of `s`, as owned strings.
pub fn lines(s: &str) -> (r: Vec<String>)
    ensures
        r@.map_values(|l: String| l@) == text_lines(s@),
{
    let n = s.unicode_len();
    let mut out: Vec<String> = Vec::new();
    let mut start: usize = 0;
    let mut i: usize = 0;
    assert(s@.take(0) =~= Seq::<char>::empty());
    assert(out@.map_values(|l: String| l@) =~= ended_lines(s@.take(0)));
    while i < n
        invariant
            n == s@.len(),
            start <= i <= n,
            out@.map_values(|l: String| l@) == ended_lines(s@.take(i as int)),
            s@.subrange(start as int, i as int) == tail_piece(s@.take(i as int)),
        decreases n - i,
    {
        let c = s.get_char(i);
        assert(s@.take(i + 1).drop_last() =~= s@.take(i as int));
        assert(s@.take(i + 1).last() == c);
        if c == '\n' {
            let ghost piece = s@.subrange(start as int, i as int);
            let end = if i > start && s.get_char(i - 1) == '\r' {
                i - 1
            } else {
                i
            };
            let line = s.substring_char(start, end).to_owned();
            assert(line@ =~= strip_cr(piece));
            let ghost before = out@;
            out.push(line);
            assert(out@.map_values(|l: String| l@) =~= before.map_values(|l: String| l@).push(
                line@,
            ));
            start = i + 1;
            assert(s@.subrange(start as int, i + 1) =~= Seq::<char>::empty());
        } else {
            assert(s@.subrange(start as int, i + 1) =~= s@.subrange(start as int, i as int).push(
                c,
            ));
        }
        i = i + 1;
    }
    assert(s@.take(n as int) =~= s@);
    if start < n {
        let ghost before = out@;
        let last = s.substring_char(start, n).to_owned();
        out.push(last);
        assert(out@.map_values(|l: String| l@) =~= before.map_values(|l: String| l@).push(last@));
    }
    out
}

/// Splits a line at its first `:`.
fn split_line(l: &str) -> (r: Option<(String, String)>)
    ensures
        match r {
            Some(kv) => split_colon(l@) == Some((kv.0@, kv.1@)),
            None => split_colon(l@) is None,
        },
{
    let n = l.unicode_len();
    let mut i: usize = 0;
    while i < n && l.get_char(i) != ':'
        invariant
            n == l@.len(),
            i <= n,
            forall|j: int| 0 <= j < i ==> l@[j] != ':',
        decreases n - i,
    {
        i = i + 1;
    }
    if i == n {
        return None;
    }
    let ghost w = i as int;
    assert(l@[w] == ':');
    proof {
        let c = choose|c: int|
            0 <= c < l@.len() && l@[c] == ':' && forall|j: int| 0 <= j < c ==> l@[j] != ':';
        if c > w {
            assert(l@[w] != ':');
        }
        assert(c == w);
    }
    let key = l.substring_char(0, i).to_owned();
    let value = l.substring_char(i + 1, n).to_owned();
    assert(key@ =~= l@.take(w));
    assert(value@ =~= l@.skip(w + 1));
    Some((key, value))
}

/// A secret value: text whose first line is the password.
#[derive(Debug, Clone, PartialEq, Eq)]
pub struct Entry {
    pub data: String,
}

impl Entry {
    pub fn new(data: String) -> (r: Entry)
        ensures
            r.data@ == data@,
    {
        Entry { data }
    }

    /// The first line of the value.
    pub fn passwd(&self) -> (r: Option<&str>)
        ensures
            match r {
                Some(l) => first_line(self.data@) == Some(l@),
                None => first_line(self.data@) is None,
            },
    {
        let s = self.data.as_str();
        let n = s.unicode_len();
        if n == 0 {
            return None;
        }
        let mut i: usize = 0;
        while i < n && s.get_char(i) != '\n'
            invariant
                n == s@.len(),
                i <= n,
                forall|j: int| 0 <= j < i ==> s@[j] != '\n',
            decreases n - i,
        {
            i = i + 1;
        }
        if i == n {
            return Some(s);
        }
        let ghost w = i as int;
        assert(s@[w] == '\n');
        proof {
            let c = choose|c: int|
                0 <= c < s@.len() && s@[c] == '\n' && forall|j: int| 0 <= j < c ==> s@[j] != '\n';
            if c < w {
            } else if c > w {
                assert(s@[w] != '\n');
            }
            assert(c == w);
        }
        let end = if i > 0 && s.get_char(i - 1) == '\r' {
            i - 1
        } else {
            i
        };
        let l = s.substring_char(0, end);
        assert(l@ =~= if s@.take(w).len() > 0 && s@.take(w).last() == '\r' {
            s@.take(w).drop_last()
        } else {
            s@.take(w)
        });
        Some(l)
    }

    /// The metadata: each line after the first (the first is the password)
    /// that has a `:`, split at its first `:`, in line order. As a map, a
    /// later line wins a shared key.
    pub fn meta(&self) -> (r: Vec<(String, String)>)
        ensures
            string_pairs_view(r@) == meta_pairs(after_first(text_lines(self.data@))),
            as_map(string_pairs_view(r@)) == metadata(self.data@),
    {
        let ls = lines(self.data.as_str());
        let ghost lv = ls@.map_values(|l: String| l@);
        let ghost rest = after_first(lv);
        let mut out: Vec<(String, String)> = Vec::new();
        if ls.len() == 0 {
            assert(rest =~= Seq::<Seq<char>>::empty());
            assert(string_pairs_view(out@) =~= meta_pairs(rest));
            return out;
        }
        let mut i: usize = 1;
        assert(lv.subrange(1, 1) =~= Seq::<Seq<char>>::empty());
        assert(string_pairs_view(out@) =~= meta_pairs(lv.subrange(1, 1)));
        while i < ls.len()
            invariant
                lv == ls@.map_values(|l: String| l@),
                1 <= i <= ls@.len(),
                string_pairs_view(out@) == meta_pairs(lv.subrange(1, i as int)),
            decreases ls@.len() - i,
        {
            assert(lv.subrange(1, i + 1).drop_last() =~= lv.subrange(1, i as int));
            assert(lv.subrange(1, i + 1).last() == ls@[i as int]@);
            let ghost before = out@;
            match split_line(ls[i].as_str()) {
                Some(kv) => {
                    let ghost v = (kv.0@, kv.1@);
                    out.push(kv);
                    assert(string_pairs_view(out@) =~= string_pairs_view(before).push(v));
                },
                None => {},
            }
            i = i + 1;
        }
        assert(lv.subrange(1, i as int) =~= rest);
        out
    }
}

} // verus!
