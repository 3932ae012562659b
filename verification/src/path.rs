//! Paths as text, with Unix conventions: joining, and the final component as
//! `std::path::Path` finds it.

use vstd::prelude::*;

use crate::text::{chars_of, push_char, push_str, string_of};

verus! {

/// `rest` appended to the path `base` as `PathBuf::join` does on Unix: an absolute
/// `rest` replaces `base`; otherwise a separator is put between them unless `base` is
/// empty or already ends with one.
pub open spec fn path_join(base: Seq<char>, rest: Seq<char>) -> Seq<char> {
    if rest.len() > 0 && rest[0] == '/' {
        rest
    } else if base.len() > 0 && base.last() != '/' {
        base + seq!['/'] + rest
    } else {
        base + rest
    }
}

/// `rest` appended to the path `base` (see `path_join`).
pub fn join_path(base: &str, rest: &str) -> (r: String)
    ensures
        r@ == path_join(base@, rest@),
{
    let b = chars_of(base);
    let t = chars_of(rest);
    if t.len() > 0 && t[0] == '/' {
        return string_of(rest);
    }
    let mut r = string_of(base);
    if b.len() > 0 && b[b.len() - 1] != '/' {
        push_char(&mut r, '/');
    }
    push_str(&mut r, rest);
    r
}

/// `p` without trailing separators.
pub open spec fn strip_trailing_seps(p: Seq<char>) -> Seq<char>
    decreases p.len(),
{
    if p.len() > 0 && p.last() == '/' {
        strip_trailing_seps(p.drop_last())
    } else {
        p
    }
}

/// Where the last component of `p` starts: just after its last separator, or 0.
pub open spec fn last_component_start(p: Seq<char>) -> int
    decreases p.len(),
{
    if p.len() == 0 {
        0
    } else if p.last() == '/' {
        p.len() as int
    } else {
        last_component_start(p.drop_last())
    }
}

proof fn lemma_strip_trailing_seps(p: Seq<char>, e: int)
    requires
        0 <= e <= p.len(),
        forall|k: int| e <= k < p.len() ==> #[trigger] p[k] == '/',
        e == 0 || p[e - 1] != '/',
    ensures
        strip_trailing_seps(p) == p.take(e),
    decreases p.len() - e,
{
    if e == p.len() {
        assert(p.take(e) =~= p);
    } else {
        let t = p.drop_last();
        assert forall|k: int| e <= k < t.len() implies #[trigger] t[k] == '/' by {
            assert(t[k] == p[k]);
        }
        lemma_strip_trailing_seps(t, e);
        assert(t.take(e) =~= p.take(e));
    }
}

proof fn lemma_last_component_start(p: Seq<char>, s: int)
    requires
        0 <= s <= p.len(),
        forall|k: int| s <= k < p.len() ==> #[trigger] p[k] != '/',
        s == 0 || p[s - 1] == '/',
    ensures
        last_component_start(p) == s,
    decreases p.len(),
{
    if p.len() > s {
        let t = p.drop_last();
        assert forall|k: int| s <= k < t.len() implies #[trigger] t[k] != '/' by {
            assert(t[k] == p[k]);
        }
        assert(s == 0 || t[s - 1] == '/');
        lemma_last_component_start(t, s);
    }
}

/// Stripping separators shortens a path, and its last component starts inside it.
pub proof fn lemma_path_bounds(p: Seq<char>)
    ensures
        strip_trailing_seps(p).len() <= p.len(),
        0 <= last_component_start(p) <= p.len(),
    decreases p.len(),
{
    if p.len() > 0 {
        lemma_path_bounds(p.drop_last());
    }
}

/// The final component of `p` as `Path::file_name` finds it on Unix: trailing
/// separators and `.` components are skipped; a final `..`, a lone root or current
/// directory, or an empty path have none.
pub open spec fn file_name_of(p: Seq<char>) -> Option<Seq<char>>
    decreases p.len(),
{
    let q = strip_trailing_seps(p);
    let start = last_component_start(q);
    let name = q.skip(start);
    proof {
        lemma_path_bounds(p);
        lemma_path_bounds(q);
    }
    if name.len() == 0 {
        None
    } else if name == seq!['.'] {
        if start == 0 {
            None
        } else {
            file_name_of(q.take(start))
        }
    } else if name == seq!['.', '.'] {
        None
    } else {
        Some(name)
    }
}

/// The characters `v[s..e]` as a string.
fn string_from(v: &Vec<char>, s: usize, e: usize) -> (r: String)
    requires
        s <= e <= v.len(),
    ensures
        r@ == v@.subrange(s as int, e as int),
{
    let mut r = String::new();
    let mut i = s;
    while i < e
        invariant
            s <= i <= e <= v.len(),
            r@ == v@.subrange(s as int, i as int),
        decreases e - i,
    {
        push_char(&mut r, v[i]);
        i = i + 1;
        assert(r@ =~= v@.subrange(s as int, i as int));
    }
    r
}

/// The final component of `path` (see `file_name_of`).
pub fn file_name(path: &str) -> (r: Option<String>)
    ensures
        match r {
            Some(n) => file_name_of(path@) == Some(n@),
            None => file_name_of(path@) is None,
        },
{
    let p = chars_of(path);
    let mut end: usize = p.len();
    assert(p@.take(end as int) =~= p@);
    loop
        invariant
            end <= p.len(),
            p@ == path@,
            file_name_of(p@) == file_name_of(p@.take(end as int)),
        decreases end,
    {
        let ghost cur = p@.take(end as int);
        let mut e = end;
        while e > 0 && p[e - 1] == '/'
            invariant
                e <= end <= p.len(),
                forall|k: int| e <= k < end ==> #[trigger] p@[k] == '/',
            decreases e,
        {
            e = e - 1;
        }
        proof { lemma_strip_trailing_seps(cur, e as int); }
        let mut s = e;
        while s > 0 && p[s - 1] != '/'
            invariant
                s <= e <= end <= p.len(),
                forall|k: int| s <= k < e ==> #[trigger] p@[k] != '/',
            decreases s,
        {
            s = s - 1;
        }
        let ghost q = cur.take(e as int);
        proof {
            assert(q =~= p@.take(e as int));
            lemma_last_component_start(q, s as int);
            assert(q.skip(s as int) =~= p@.subrange(s as int, e as int));
        }
        if s == e {
            return None;
        }
        if e - s == 1 && p[s] == '.' {
            assert(q.skip(s as int) =~= seq!['.']);
            if s == 0 {
                return None;
            }
            assert(q.take(s as int) =~= p@.take(s as int));
            end = s;
            continue;
        }
        if e - s == 2 && p[s] == '.' && p[s + 1] == '.' {
            assert(q.skip(s as int) =~= seq!['.', '.']);
            return None;
        }
        proof {
            if q.skip(s as int) == seq!['.'] {
                assert(q.skip(s as int)[0] == p@[s as int]);
            }
            if q.skip(s as int) == seq!['.', '.'] {
                assert(q.skip(s as int)[0] == p@[s as int]);
                assert(q.skip(s as int)[1] == p@[s + 1]);
            }
        }
        assert(file_name_of(p@) == Some(p@.subrange(s as int, e as int)));
        return Some(string_from(&p, s, e));
    }
}

} // verus!
