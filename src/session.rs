use vstd::prelude::*;

use crate::codec::{has_parent_key, lemma_sorted_unique, normalize_keys, serial_pairs};
use crate::error::Error;
use crate::json::{json_object_read, json_object_text};
use crate::store::{as_map, Store};

verus! {

/// The name of the variable that holds the command search path: `PATH`.
pub open spec fn path_var() -> Seq<u8> {
    seq![80u8, 65u8, 84u8, 72u8]
}

/// The search path for the child: the session directory first, then what
/// was there before, if anything, joined by `:`.
pub open spec fn search_path_bytes(current: Option<Seq<u8>>, session_dir: Seq<u8>) -> Seq<u8> {
    match current {
        Some(p) => session_dir + seq![58u8] + p,
        None => session_dir,
    }
}

/// A variable as the child sees it: the search path gets the session
/// directory in front, every other variable stays as it is, byte for byte.
pub open spec fn rewriter(session_dir: Seq<u8>) -> spec_fn((Seq<u8>, Seq<u8>)) -> (
    Seq<u8>,
    Seq<u8>,
) {
    |e: (Seq<u8>, Seq<u8>)|
        if e.0 == path_var() {
            (e.0, search_path_bytes(Some(e.1), session_dir))
        } else {
            e
        }
}

/// Whether an environment holds the search-path variable.
pub open spec fn has_path_var(env: Seq<(Seq<u8>, Seq<u8>)>) -> bool {
    exists|i: int| 0 <= i < env.len() && #[trigger] env[i].0 == path_var()
}

/// The child's environment: every variable of `base` unchanged but the
/// search path, which gets the session directory in front; a search path
/// made of the session directory alone when `base` has none.
pub open spec fn child_env(env: Seq<(Seq<u8>, Seq<u8>)>, session_dir: Seq<u8>) -> Seq<
    (Seq<u8>, Seq<u8>),
> {
    let rewritten = env.map_values(rewriter(session_dir));
    if has_path_var(env) {
        rewritten
    } else {
        rewritten.push((path_var(), session_dir))
    }
}

pub open spec fn env_view(v: Seq<(Vec<u8>, Vec<u8>)>) -> Seq<(Seq<u8>, Seq<u8>)> {
    v.map_values(|e: (Vec<u8>, Vec<u8>)| (e.0@, e.1@))
}

/// Text quoted for the shell: inside single quotes, each `'` written as
/// `'\''`, so that the shell reads back exactly the text.
pub open spec fn shell_quoted(s: Seq<char>) -> Seq<char> {
    "'"@ + shell_escaped(s) + "'"@
}

pub open spec fn shell_escaped(s: Seq<char>) -> Seq<char>
    decreases s.len(),
{
    if s.len() == 0 {
        Seq::empty()
    } else if s.last() == '\'' {
        shell_escaped(s.drop_last()) + "'\\''"@
    } else {
        shell_escaped(s.drop_last()).push(s.last())
    }
}

/// The wrapper script: it announces quiet mode and the session's store file
/// through two variables, then runs the real program with the arguments it
/// was given. Both paths are quoted.
pub open spec fn wrapper_text(exec: Seq<char>, store_file: Seq<char>) -> Seq<char> {
    "#!/usr/bin/env sh\nexport IMPOSTER_PASS_QUIET=true\nexport IMPOSTER_PASS_STORE="@
        + shell_quoted(store_file) + "\nexec "@ + shell_quoted(exec) + " \"$@\"\n"@
}

fn bytes_eq(a: &[u8], b: &[u8]) -> (r: bool)
    ensures
        r == (a@ == b@),
{
    if a.len() != b.len() {
        return false;
    }
    let mut i: usize = 0;
    while i < a.len()
        invariant
            a@.len() == b@.len(),
            i <= a@.len(),
            a@.take(i as int) == b@.take(i as int),
        decreases a@.len() - i,
    {
        if a[i] != b[i] {
            proof {
                if a@ == b@ {
                    assert(a@[i as int] == b@[i as int]);
                }
            }
            return false;
        }
        assert(a@.take(i + 1) =~= a@.take(i as int).push(a@[i as int]));
        assert(b@.take(i + 1) =~= b@.take(i as int).push(b@[i as int]));
        i = i + 1;
    }
    assert(a@.take(i as int) =~= a@);
    assert(b@.take(i as int) =~= b@);
    true
}

fn push_all(out: &mut Vec<u8>, b: &[u8])
    ensures
        final(out)@ == old(out)@ + b@,
{
    let ghost start = out@;
    let mut i: usize = 0;
    assert(start + b@.take(0) =~= start);
    while i < b.len()
        invariant
            i <= b@.len(),
            out@ == start + b@.take(i as int),
        decreases b@.len() - i,
    {
        out.push(b[i]);
        assert(out@ =~= start + b@.take(i + 1));
        i = i + 1;
    }
    assert(b@.take(i as int) =~= b@);
}

/// The search path for the child process.
pub fn search_path(current: Option<&[u8]>, session_dir: &[u8]) -> (r: Vec<u8>)
    ensures
        r@ == search_path_bytes(
            match current {
                Some(p) => Some(p@),
                None => None,
            },
            session_dir@,
        ),
{
    let mut r: Vec<u8> = Vec::new();
    push_all(&mut r, session_dir);
    assert(r@ =~= session_dir@);
    if let Some(p) = current {
        r.push(58u8);
        push_all(&mut r, p);
        assert(r@ =~= session_dir@ + seq![58u8] + p@);
    }
    r
}

/// The environment to start the child with, built from the parent's as a
/// value; the parent's own environment is not touched.
pub fn child_environment(base: &Vec<(Vec<u8>, Vec<u8>)>, session_dir: &[u8]) -> (r: Vec<
    (Vec<u8>, Vec<u8>),
>)
    ensures
        env_view(r@) == child_env(env_view(base@), session_dir@),
{
    let mut name: Vec<u8> = Vec::new();
    name.push(80u8);
    name.push(65u8);
    name.push(84u8);
    name.push(72u8);
    assert(name@ =~= path_var());
    let ghost env = env_view(base@);
    let ghost f = rewriter(session_dir@);
    let mut out: Vec<(Vec<u8>, Vec<u8>)> = Vec::new();
    let mut seen = false;
    let mut i: usize = 0;
    assert(env_view(out@) =~= env.take(0).map_values(f));
    while i < base.len()
        invariant
            i <= base@.len(),
            env == env_view(base@),
            name@ == path_var(),
            f == rewriter(session_dir@),
            env_view(out@) == env.take(i as int).map_values(f),
            seen <==> exists|j: int| 0 <= j < i && #[trigger] env[j].0 == path_var(),
        decreases base@.len() - i,
    {
        let e = &base[i];
        let ghost before = out@;
        assert(env[i as int] == (e.0@, e.1@));
        let mut k: Vec<u8> = Vec::new();
        push_all(&mut k, e.0.as_slice());
        assert(k@ =~= e.0@);
        if bytes_eq(e.0.as_slice(), name.as_slice()) {
            let v = search_path(Some(e.1.as_slice()), session_dir);
            out.push((k, v));
            seen = true;
        } else {
            let mut v: Vec<u8> = Vec::new();
            push_all(&mut v, e.1.as_slice());
            assert(v@ =~= e.1@);
            out.push((k, v));
        }
        assert(env_view(out@) =~= env_view(before).push(f(env[i as int])));
        proof {
            if e.0@ == path_var() {
                assert(env[i as int].0 == path_var());
            } else {
                assert forall|j: int| 0 <= j < i + 1 && #[trigger] env[j].0 == path_var() implies j
                    < i by {}
            }
        }
        assert(env.take(i + 1) =~= env.take(i as int).push(env[i as int]));
        assert(env.take(i + 1).map_values(f) =~= env.take(i as int).map_values(f).push(
            f(env[i as int]),
        ));
        i = i + 1;
    }
    assert(env.take(i as int) =~= env);
    if !seen {
        let ghost before = out@;
        let mut v: Vec<u8> = Vec::new();
        push_all(&mut v, session_dir);
        assert(v@ =~= session_dir@);
        out.push((name, v));
        assert(env_view(out@) =~= env_view(before).push((path_var(), session_dir@)));
    }
    out
}

/// `s` quoted for the shell.
pub fn shell_quote(s: &str) -> (r: String)
    ensures
        r@ == shell_quoted(s@),
{
    let n = s.unicode_len();
    let mut r = String::new();
    r.append("'");
    let ghost start = r@;
    let mut i: usize = 0;
    assert(s@.take(0) =~= Seq::<char>::empty());
    assert(r@ =~= start + shell_escaped(s@.take(0)));
    while i < n
        invariant
            n == s@.len(),
            i <= n,
            r@ == start + shell_escaped(s@.take(i as int)),
        decreases n - i,
    {
        let c = s.get_char(i);
        assert(s@.take(i + 1).drop_last() =~= s@.take(i as int));
        assert(s@.take(i + 1).last() == c);
        if c == '\'' {
            r.append("'\\''");
            assert(r@ =~= start + shell_escaped(s@.take(i + 1)));
        } else {
            let one = s.substring_char(i, i + 1);
            assert(one@ =~= seq![c]);
            r.append(one);
            assert(r@ =~= start + shell_escaped(s@.take(i + 1)));
        }
        i = i + 1;
    }
    assert(s@.take(i as int) =~= s@);
    r.append("'");
    assert(r@ =~= shell_quoted(s@));
    r
}

/// The text of the wrapper script for the real program at `exec`, handing it
/// the store file at `store_file`.
pub fn wrapper_script(exec: &str, store_file: &str) -> (r: String)
    ensures
        r@ == wrapper_text(exec@, store_file@),
{
    let mut r = String::new();
    r.append("#!/usr/bin/env sh\nexport IMPOSTER_PASS_QUIET=true\nexport IMPOSTER_PASS_STORE=");
    let q = shell_quote(store_file);
    r.append(q.as_str());
    r.append("\nexec ");
    let e = shell_quote(exec);
    r.append(e.as_str());
    r.append(" \"$@\"\n");
    r
}

/// The store to persist at the end of a command: the new one when its
/// content differs from what was loaded, nothing when it is the same.
pub fn store_to_save(before: &Store, after: Store) -> (r: Option<Store>)
    ensures
        r is Some <==> after@ != before@,
        r matches Some(s) ==> s@ == after@,
{
    if after == *before {
        None
    } else {
        Some(after)
    }
}

/// The outcome of a session, from the snapshot file the child left behind:
/// the store to save when its content changed, nothing when it did not.
/// Reading the snapshot never touches `original`; a snapshot that is not an
/// object of strings, or that holds a key with a `..` segment, is an error.
pub fn finish_session(original: &Store, snapshot: &str) -> (r: Result<Option<Store>, Error>)
    requires
        original.wf(),
    ensures
        json_object_read(snapshot@) is None ==> (r matches Err(e) && e is Serde),
        json_object_read(snapshot@) matches Some(p) ==> (r is Err <==> has_parent_key(p)),
        json_object_read(snapshot@) matches Some(p) ==> (r matches Ok(o) ==> (o is None <==> as_map(
            original@,
        ) == as_map(normalize_keys(p)))),
        json_object_read(snapshot@) matches Some(p) ==> (r matches Ok(Some(st)) ==> st.wf()
            && as_map(st@) == as_map(normalize_keys(p)) && st@ != original@),
        json_object_text(serial_pairs(original@)) == snapshot@ ==> (r matches Ok(o) && o is None),
{
    let read = Store::from_json(snapshot)?;
    let r = store_to_save(original, read);
    proof {
        if r is Some {
            if as_map(original@) == as_map(read@) {
                lemma_sorted_unique(original@, read@);
            }
        }
    }
    Ok(r)
}

} // verus!
