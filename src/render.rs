use vstd::prelude::*;

use crate::error::Error;
use crate::path::{common_len, has_parent_step, join, PathKey};
use crate::store::{entries_view, keys_of, normalized_opt, selected, EntryView, Store};

verus! {

/// `n` tab characters.
pub open spec fn tabs(n: nat) -> Seq<char>
    decreases n,
{
    if n == 0 {
        Seq::empty()
    } else {
        tabs((n - 1) as nat).push('\t')
    }
}

/// One output line: a segment indented by its depth.
pub open spec fn line(depth: nat, seg: Seq<char>) -> Seq<char> {
    tabs(depth) + seg + seq!['\n']
}

/// The lines for the segments of `k` from depth `from` on.
pub open spec fn branch_lines(k: Seq<Seq<char>>, from: nat) -> Seq<char>
    decreases k.len() - from,
{
    if from >= k.len() {
        Seq::empty()
    } else {
        line(from, k[from as int]) + branch_lines(k, from + 1)
    }
}

/// The tree body: each key prints the segments beyond those it shares with
/// the key printed before it (`anc` at the start), one line each.
pub open spec fn tree_lines(anc: Seq<Seq<char>>, keys: Seq<Seq<Seq<char>>>) -> Seq<char>
    decreases keys.len(),
{
    if keys.len() == 0 {
        Seq::empty()
    } else {
        branch_lines(keys[0], common_len(anc, keys[0])) + tree_lines(keys[0], keys.drop_first())
    }
}

/// The title line of a listing of the whole store.
pub open spec fn title_line() -> Seq<char> {
    "Password Store"@ + seq!['\n']
}

/// The header of a tree: the prefix's text, or the store's title when the
/// prefix is absent or empty.
pub open spec fn header(p: Option<Seq<Seq<char>>>) -> Seq<char> {
    match p {
        Some(q) => if q.len() > 0 {
            join(q) + seq!['\n']
        } else {
            title_line()
        },
        None => title_line(),
    }
}

/// The selection names exactly one entry, whose key is the prefix itself.
pub open spec fn is_exact(p: Option<Seq<Seq<char>>>, c: Seq<EntryView>) -> bool {
    c.len() == 1 && p == Some(c[0].0)
}

/// What a listing prints when its selection is not empty and not exact.
pub open spec fn tree_text(p: Option<Seq<Seq<char>>>, c: Seq<EntryView>) -> Seq<char> {
    header(p) + tree_lines(
        match p {
            Some(q) => q,
            None => Seq::empty(),
        },
        keys_of(c),
    )
}

pub proof fn lemma_common_len_bound(a: Seq<Seq<char>>, b: Seq<Seq<char>>)
    ensures
        common_len(a, b) <= a.len(),
        common_len(a, b) <= b.len(),
    decreases a.len(),
{
    if a.len() > 0 && b.len() > 0 && a[0] == b[0] {
        lemma_common_len_bound(a.drop_first(), b.drop_first());
    }
}

/// Appends `depth` tabs, `seg` and a line break.
fn push_line(out: &mut String, depth: usize, seg: &str)
    ensures
        final(out)@ == old(out)@ + line(depth as nat, seg@),
{
    let ghost start = out@;
    let mut d: usize = 0;
    proof {
        reveal_strlit("\t");
        reveal_strlit("\n");
    }
    assert(start =~= start + tabs(0));
    while d < depth
        invariant
            d <= depth,
            out@ == start + tabs(d as nat),
        decreases depth - d,
    {
        out.append("\t");
        proof {
            reveal_strlit("\t");
        }
        assert(out@ =~= start + tabs((d + 1) as nat));
        d = d + 1;
    }
    out.append(seg);
    out.append("\n");
    assert(out@ =~= start + line(depth as nat, seg@));
}

impl Store {
    /// What a listing of `path` prints, as text: the secret itself when
    /// `path` names exactly one entry and that entry's own key; else a tree
    /// under a header, each shared segment printed once and indented by its
    /// depth. An empty selection is `NotInStore` when a path was given and
    /// the bare title when the whole store was asked for.
    pub fn show(&self, path: Option<&str>) -> (r: Result<String, Error>)
        ensures
            path matches Some(raw) ==> (has_parent_step(raw@) ==> (r matches Err(e)
                && e matches Error::InvalidPath(t) && t@ == raw@)),
            ({
                let p = normalized_opt(path);
                let c = self@.filter(selected(p));
                path matches Some(raw) && !has_parent_step(raw@) ==> if c.len() == 0 {
                    r matches Err(e) && e matches Error::NotInStore(t) && t@ == join(p.unwrap())
                } else if is_exact(p, c) {
                    r matches Ok(text) && text@ == c[0].1
                } else {
                    r matches Ok(text) && text@ == tree_text(p, c)
                }
            }),
            ({
                let c = self@;
                path is None ==> if c.len() == 0 {
                    r matches Ok(text) && text@ == title_line()
                } else {
                    r matches Ok(text) && text@ == tree_text(None, c)
                }
            }),
    {
        let prefix = match path {
            None => None,
            Some(raw) => Some(PathKey::normalize(raw)?),
        };
        let items = self.list(path)?;
        let ghost p = normalized_opt(path);
        let ghost c = self@.filter(selected(p));
        proof {
            if path is None {
                assert(c == self@);
            }
        }
        if items.len() == 0 {
            return match prefix {
                Some(q) => Err(Error::NotInStore(q.text())),
                None => {
                    let mut t = String::new();
                    t.append("Password Store");
                    t.append("\n");
                    proof {
                        reveal_strlit("\n");
                    }
                    assert(t@ =~= title_line());
                    Ok(t)
                },
            };
        }
        if items.len() == 1 {
            if let Some(q) = &prefix {
                if matches!(q.compare(&items[0].0), std::cmp::Ordering::Equal) {
                    assert(c[0] == (items@[0].0@, items@[0].1@));
                    return Ok(items[0].1.clone());
                }
            }
        }
        proof {
            if items.len() == 1 {
                assert(c[0] == (items@[0].0@, items@[0].1@));
            }
        }
        let mut out = String::new();
        let mut anc = match &prefix {
            Some(q) => q.clone(),
            None => PathKey::root(),
        };
        proof {
            reveal_strlit("\n");
        }
        if anc.len() == 0 {
            out.append("Password Store");
            out.append("\n");
            assert(out@ =~= title_line());
        } else {
            out.append(anc.text().as_str());
            out.append("\n");
            assert(out@ =~= join(anc@) + seq!['\n']);
        }
        let ghost keys = keys_of(c);
        let ghost total = tree_text(p, c);
        assert(keys.skip(0) =~= keys);
        let mut i: usize = 0;
        while i < items.len()
            invariant
                i <= items@.len(),
                entries_view(items@) == c,
                keys == keys_of(c),
                keys.len() == items@.len(),
                out@ + tree_lines(anc@, keys.skip(i as int)) == total,
            decreases items@.len() - i,
        {
            let k = &items[i].0;
            assert(keys[i as int] == k@);
            let shared = anc.common_prefix(k);
            proof {
                lemma_common_len_bound(anc@, k@);
            }
            let from = shared.len();
            let ghost before = out@;
            let ghost rest = tree_lines(k@, keys.skip(i + 1));
            assert(keys.skip(i as int).drop_first() =~= keys.skip(i + 1));
            assert(keys.skip(i as int)[0] == k@);
            assert(tree_lines(anc@, keys.skip(i as int)) == branch_lines(k@, from as nat) + rest);
            let n = k.len();
            let mut j = from;
            assert(before + branch_lines(k@, from as nat) =~= out@ + branch_lines(k@, j as nat));
            while j < n
                invariant
                    from <= j <= n,
                    n == k@.len(),
                    before + branch_lines(k@, from as nat) == out@ + branch_lines(k@, j as nat),
                decreases n - j,
            {
                let ghost o = out@;
                push_line(&mut out, j, k.segment(j));
                assert(branch_lines(k@, j as nat) == line(j as nat, k@[j as int]) + branch_lines(
                    k@,
                    (j + 1) as nat,
                ));
                assert(o + branch_lines(k@, j as nat) =~= out@ + branch_lines(k@, (j + 1) as nat));
                j = j + 1;
            }
            assert(branch_lines(k@, j as nat) == Seq::<char>::empty());
            assert(out@ + rest =~= before + (branch_lines(k@, from as nat) + rest));
            anc = k.clone();
            i = i + 1;
        }
        assert(keys.skip(i as int) =~= Seq::<Seq<Seq<char>>>::empty());
        assert(out@ =~= out@ + tree_lines(anc@, keys.skip(i as int)));
        Ok(out)
    }
}

} // verus!
