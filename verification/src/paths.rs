//! Paths held as text: joining as `Path::join` does and comparing as `Path`
//! equality does (by components).

use vstd::prelude::*;
use crate::text::{chars_of, lemma_split_nonempty, push_all, split_chars, split_on, string_of};

verus! {

/// `dir.join(name)` on Unix: an absolute `name` replaces `dir`; otherwise a `/`
/// goes between them unless `dir` is empty or already ends in `/`.
pub open spec fn path_join(dir: Seq<char>, name: Seq<char>) -> Seq<char> {
    if name.len() > 0 && name[0] == '/' {
        name
    } else if dir.len() == 0 {
        name
    } else if dir.last() == '/' {
        dir + name
    } else {
        dir + seq!['/'] + name
    }
}

/// Joins a path and a file name.
pub fn join_path(dir: &str, name: &str) -> (r: String)
    ensures
        r@ == path_join(dir@, name@),
{
    let d = chars_of(dir);
    let n = chars_of(name);
    if n.len() > 0 && n[0] == '/' {
        return string_of(&n);
    }
    let mut out: Vec<char> = Vec::new();
    push_all(&mut out, &d);
    if d.len() > 0 && d[d.len() - 1] != '/' {
        out.push('/');
    }
    push_all(&mut out, &n);
    string_of(&out)
}

/// The pieces between `/` that name something: not empty and not `.`.
pub open spec fn named_components(pieces: Seq<Seq<char>>) -> Seq<Seq<char>>
    decreases pieces.len(),
{
    if pieces.len() == 0 {
        Seq::empty()
    } else {
        let rest = named_components(pieces.drop_last());
        let c = pieces.last();
        if c.len() == 0 || c == seq!['.'] { rest } else { rest.push(c) }
    }
}

/// The named components are the pieces that are neither empty nor `.`, in order.
pub proof fn lemma_named_components_filter(pieces: Seq<Seq<char>>)
    ensures
        named_components(pieces) == pieces.filter(|c: Seq<char>| c.len() > 0 && c != seq!['.']),
    decreases pieces.len(),
{
    reveal(Seq::filter);
    if pieces.len() > 0 {
        lemma_named_components_filter(pieces.drop_last());
    }
}

/// What `Path` equality compares: the components of the path, with a leading
/// `/` (root) or leading `.` (current directory) kept as a first marker.
pub open spec fn path_key(p: Seq<char>) -> Seq<Seq<char>> {
    let pieces = split_on(p, '/');
    let head: Seq<Seq<char>> = if p.len() > 0 && p[0] == '/' {
        seq![seq!['/']]
    } else if pieces[0] == seq!['.'] {
        seq![seq!['.']]
    } else {
        Seq::empty()
    };
    head + named_components(pieces)
}

/// The components of a path, as `path_key` gives them.
pub fn path_components(p: &str) -> (r: Vec<Vec<char>>)
    ensures
        r@.map_values(|v: Vec<char>| v@) == path_key(p@),
{
    let s = chars_of(p);
    let pieces = split_chars(&s, '/');
    proof { lemma_split_nonempty(s@, '/'); }
    let mut r: Vec<Vec<char>> = Vec::new();
    if s.len() > 0 && s[0] == '/' {
        r.push(vec!['/']);
    } else if pieces[0].len() == 1 && pieces[0][0] == '.' {
        r.push(vec!['.']);
    }
    let ghost head = r@.map_values(|v: Vec<char>| v@);
    let ghost pv = split_on(s@, '/');
    proof {
        let want: Seq<Seq<char>> = if s@.len() > 0 && s@[0] == '/' {
            seq![seq!['/']]
        } else if pv[0] == seq!['.'] {
            seq![seq!['.']]
        } else {
            Seq::empty()
        };
        if s@.len() > 0 && s@[0] == '/' {
            assert(r@[0]@ == seq!['/']);
            assert(head == want);
        } else if pieces@[0]@.len() == 1 && pieces@[0]@[0] == '.' {
            assert(r@[0]@ == seq!['.']);
            assert(pv[0] == seq!['.']);
            assert(head == want);
        } else {
            assert(pv[0] != seq!['.']) by {
                if pv[0] == seq!['.'] {
                    assert(pieces@[0]@ == seq!['.']);
                }
            }
            assert(head == want);
        }
        if !(s@.len() > 0 && s@[0] == '/') {
            if pieces@[0]@ == seq!['.'] {
                assert(pieces@[0]@.len() == 1 && pieces@[0]@[0] == '.');
            }
            if pieces@[0]@.len() == 1 && pieces@[0]@[0] == '.' {
                assert(pieces@[0]@ == seq!['.']);
            }
        }
        assert(head + named_components(pv.take(0)) == head);
    }
    let mut i: usize = 0;
    while i < pieces.len()
        invariant
            pieces@.len() == pv.len(),
            forall|k: int| 0 <= k < pv.len() ==> (#[trigger] pieces@[k])@ == pv[k],
            i <= pieces.len(),
            r@.map_values(|v: Vec<char>| v@) == head + named_components(pv.take(i as int)),
        decreases pieces.len() - i,
    {
        let c = &pieces[i];
        assert(pv.take(i + 1).drop_last() == pv.take(i as int));
        let is_dot = c.len() == 1 && c[0] == '.';
        proof {
            if c@ == seq!['.'] {
                assert(c@.len() == 1 && c@[0] == '.');
            }
            if c@.len() == 1 && c@[0] == '.' {
                assert(c@ == seq!['.']);
            }
        }
        let ghost before = r@.map_values(|v: Vec<char>| v@);
        assert(pv.take(i + 1).last() == pv[i as int]);
        if c.len() != 0 && !is_dot {
            r.push(c.clone());
            assert(r@.map_values(|v: Vec<char>| v@) == before.push(c@));
        }
        i += 1;
    }
    assert(pv.take(pieces.len() as int) == pv);
    r
}

/// Two paths are equal as `Path` values.
pub fn same_path(a: &str, b: &str) -> (r: bool)
    ensures
        r == (path_key(a@) == path_key(b@)),
{
    let ka = path_components(a);
    let kb = path_components(b);
    if ka.len() != kb.len() {
        assert(ka@.map_values(|v: Vec<char>| v@).len() != kb@.map_values(|v: Vec<char>| v@).len());
        return false;
    }
    let mut i: usize = 0;
    while i < ka.len()
        invariant
            ka.len() == kb.len(),
            ka@.map_values(|v: Vec<char>| v@) == path_key(a@),
            kb@.map_values(|v: Vec<char>| v@) == path_key(b@),
            i <= ka.len(),
            forall|k: int| 0 <= k < i ==> (#[trigger] ka@[k])@ == kb@[k]@,
        decreases ka.len() - i,
    {
        if !crate::text::chars_eq(&ka[i], &kb[i]) {
            assert(ka@.map_values(|v: Vec<char>| v@)[i as int] != kb@.map_values(|v: Vec<char>| v@)[i as int]);
            return false;
        }
        i += 1;
    }
    assert(ka@.map_values(|v: Vec<char>| v@) == kb@.map_values(|v: Vec<char>| v@));
    true
}

} // verus!
