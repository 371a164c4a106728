//! Reading the vicious-circle ledger for deduplication.
//!
//! The ledger is an append-only JSONL file. Each entry has at minimum an
//! `artifact_path` and a `date` field (YYYY-MM-DD). They tell whether an
//! artifact has already been critiqued for a given date.

use vstd::prelude::*;
use crate::paths::{path_key, same_path};
use crate::text::{chars_of, lines_of, string_of, text_lines, trim_chars, trimmed};

verus! {

/// A single ledger entry (only the fields read here).
#[derive(Debug)]
pub struct LedgerEntry {
    /// Path to the artifact that was critiqued.
    pub artifact_path: Option<String>,
    /// ISO date (YYYY-MM-DD) of the session.
    pub date: Option<String>,
    /// The crowned bon mot for this entry, if any.
    pub crowned: Option<String>,
}

/// The entry is dated `date`.
pub open spec fn dated(e: LedgerEntry, date: Seq<char>) -> bool {
    e.date matches Some(d) && d@ == date
}

/// The trimmed, non-blank lines of a ledger text with their 0-based line numbers.
pub open spec fn nonblank_lines(lines: Seq<Seq<char>>) -> Seq<(int, Seq<char>)>
    decreases lines.len(),
{
    if lines.len() == 0 {
        Seq::empty()
    } else {
        let rest = nonblank_lines(lines.drop_last());
        let t = trimmed(lines.last());
        if t.len() > 0 { rest.push(((lines.len() - 1) as int, t)) } else { rest }
    }
}

/// The non-blank lines are each line that trims to something, with its number
/// and trimmed text, every such line once, in order of line number.
pub proof fn lemma_nonblank_lines_exact(lines: Seq<Seq<char>>)
    ensures
        forall|j: int| 0 <= j < nonblank_lines(lines).len() ==> {
            let (k, t) = #[trigger] nonblank_lines(lines)[j];
            0 <= k < lines.len() && t == trimmed(lines[k]) && t.len() > 0
        },
        forall|j1: int, j2: int| 0 <= j1 < j2 < nonblank_lines(lines).len()
            ==> (#[trigger] nonblank_lines(lines)[j1]).0 < (#[trigger] nonblank_lines(lines)[j2]).0,
        forall|k: int| 0 <= k < lines.len() && (#[trigger] trimmed(lines[k])).len() > 0 ==>
            exists|j: int| 0 <= j < nonblank_lines(lines).len() && nonblank_lines(lines)[j] == (k, trimmed(lines[k])),
    decreases lines.len(),
{
    if lines.len() > 0 {
        let init = lines.drop_last();
        lemma_nonblank_lines_exact(init);
        let rest = nonblank_lines(init);
        let all = nonblank_lines(lines);
        let n = lines.len() - 1;
        assert forall|k: int| 0 <= k < n implies #[trigger] init[k] == lines[k] by {}
        assert forall|j: int| 0 <= j < rest.len() implies (#[trigger] rest[j]).0 < n by {
            let (k, t) = rest[j];
        }
        if trimmed(lines.last()).len() > 0 {
            assert(all == rest.push((n, trimmed(lines[n]))));
            assert forall|k: int| 0 <= k < lines.len() && (#[trigger] trimmed(lines[k])).len() > 0 implies
                exists|j: int| 0 <= j < all.len() && all[j] == (k, trimmed(lines[k])) by {
                if k < n {
                    assert(trimmed(init[k]).len() > 0);
                    let j = choose|j: int| 0 <= j < rest.len() && rest[j] == (k, trimmed(init[k]));
                    assert(all[j] == rest[j]);
                } else {
                    assert(all[all.len() - 1] == (k, trimmed(lines[k])));
                }
            }
        } else {
            assert(all == rest);
            assert forall|k: int| 0 <= k < lines.len() && (#[trigger] trimmed(lines[k])).len() > 0 implies
                exists|j: int| 0 <= j < all.len() && all[j] == (k, trimmed(lines[k])) by {
                if k < n {
                    assert(trimmed(init[k]).len() > 0);
                } else {
                    assert(lines[k] == lines.last());
                }
            }
        }
    }
}

/// The lines of a ledger that hold an entry: each trimmed, blank ones left out,
/// with its 0-based line number.
pub fn ledger_lines(contents: &str) -> (r: Vec<(usize, String)>)
    ensures
        r@.map_values(|p: (usize, String)| (p.0 as int, p.1@)) == nonblank_lines(text_lines(contents@)),
        forall|j: int| 0 <= j < r@.len() ==> (#[trigger] r@[j]).0 < text_lines(contents@).len()
            && r@[j].1@ == trimmed(text_lines(contents@)[r@[j].0 as int]) && r@[j].1@.len() > 0,
        forall|j1: int, j2: int| 0 <= j1 < j2 < r@.len() ==> (#[trigger] r@[j1]).0 < (#[trigger] r@[j2]).0,
        forall|k: int| 0 <= k < text_lines(contents@).len() && (#[trigger] trimmed(text_lines(contents@)[k])).len() > 0
            ==> exists|j: int| 0 <= j < r@.len() && (#[trigger] r@[j]).0 == k,
{
    let s = chars_of(contents);
    let lines = lines_of(&s);
    let ghost ls = text_lines(contents@);
    let mut r: Vec<(usize, String)> = Vec::new();
    let mut i: usize = 0;
    while i < lines.len()
        invariant
            lines@.len() == ls.len(),
            forall|k: int| 0 <= k < ls.len() ==> (#[trigger] lines@[k])@ == ls[k],
            i <= lines.len(),
            r@.map_values(|p: (usize, String)| (p.0 as int, p.1@)) == nonblank_lines(ls.take(i as int)),
        decreases lines.len() - i,
    {
        let t = trim_chars(&lines[i]);
        assert(ls.take(i + 1).drop_last() == ls.take(i as int));
        assert(ls.take(i + 1).last() == ls[i as int]);
        let ghost before = r@.map_values(|p: (usize, String)| (p.0 as int, p.1@));
        if t.len() > 0 {
            r.push((i, string_of(&t)));
            assert(r@.map_values(|p: (usize, String)| (p.0 as int, p.1@)) == before.push((i as int, t@)));
        }
        i += 1;
    }
    assert(ls.take(lines.len() as int) == ls);
    proof {
        lemma_nonblank_lines_exact(ls);
        let m = r@.map_values(|p: (usize, String)| (p.0 as int, p.1@));
        assert forall|j: int| 0 <= j < r@.len() implies #[trigger] m[j] == (r@[j].0 as int, r@[j].1@) by {}
        assert forall|j: int| 0 <= j < r@.len() implies (#[trigger] r@[j]).0 < ls.len()
            && r@[j].1@ == trimmed(ls[r@[j].0 as int]) && r@[j].1@.len() > 0 by {
            assert(m[j] == nonblank_lines(ls)[j]);
        }
        assert forall|j1: int, j2: int| 0 <= j1 < j2 < r@.len() implies (#[trigger] r@[j1]).0 < (#[trigger] r@[j2]).0 by {
            assert(m[j1] == nonblank_lines(ls)[j1]);
            assert(m[j2] == nonblank_lines(ls)[j2]);
        }
        assert forall|k: int| 0 <= k < ls.len() && (#[trigger] trimmed(ls[k])).len() > 0
            implies exists|j: int| 0 <= j < r@.len() && (#[trigger] r@[j]).0 == k by {
            let j = choose|j: int| 0 <= j < nonblank_lines(ls).len() && nonblank_lines(ls)[j] == (k, trimmed(ls[k]));
            assert(m[j] == nonblank_lines(ls)[j]);
        }
    }
    r
}

/// The line parsed to an entry dated `date` that names the artifact `p`
/// (compared as paths).
pub open spec fn entry_records(o: Option<LedgerEntry>, date: Seq<char>, p: Seq<char>) -> bool {
    match o {
        Some(e) => dated(e, date) && match e.artifact_path {
            Some(a) => path_key(a@) == path_key(p),
            None => false,
        },
        None => false,
    }
}

/// Some parsed entry dated `date` names the artifact `p` (compared as paths).
pub open spec fn records(entries: Seq<Option<LedgerEntry>>, date: Seq<char>, p: Seq<char>) -> bool {
    exists|i: int| 0 <= i < entries.len() && #[trigger] entry_records(entries[i], date, p)
}

/// Every occurrence of `q` among the entries dated `date` comes after some
/// occurrence of `p`: `p` first appears before `q` does.
pub open spec fn appears_before(entries: Seq<Option<LedgerEntry>>, date: Seq<char>, p: Seq<char>, q: Seq<char>) -> bool {
    forall|t: int| 0 <= t < entries.len() && #[trigger] entry_records(entries[t], date, q)
        ==> records(entries.take(t), date, p)
}

/// The artifact paths recorded for `date`, one per distinct path, in order of
/// first appearance. `entries` holds one parse result per non-blank ledger
/// line, `None` for a line that does not parse: the ledger then counts as
/// unreadable and the answer is `Err` with the position of the first such line.
pub fn already_recorded(entries: &Vec<Option<LedgerEntry>>, date: &str) -> (r: Result<Vec<String>, usize>)
    ensures
        r matches Err(k) ==> k < entries@.len() && entries@[k as int] is None
            && forall|t: int| 0 <= t < k ==> #[trigger] entries@[t] is Some,
        r matches Ok(v) ==> forall|t: int| 0 <= t < entries@.len() ==> #[trigger] entries@[t] is Some,
        r matches Ok(v) ==> forall|k: int| 0 <= k < v@.len() ==> records(entries@, date@, #[trigger] v@[k]@),
        r matches Ok(v) ==> forall|p: Seq<char>| #[trigger] records(entries@, date@, p) ==>
            exists|k: int| 0 <= k < v@.len() && path_key(#[trigger] v@[k]@) == path_key(p),
        r matches Ok(v) ==> forall|k1: int, k2: int| 0 <= k1 < k2 < v@.len()
            ==> path_key(#[trigger] v@[k1]@) != path_key(#[trigger] v@[k2]@),
        r matches Ok(v) ==> forall|k1: int, k2: int| 0 <= k1 < k2 < v@.len()
            ==> appears_before(entries@, date@, #[trigger] v@[k1]@, #[trigger] v@[k2]@),
{
    let mut t: usize = 0;
    while t < entries.len()
        invariant
            t <= entries.len(),
            forall|u: int| 0 <= u < t ==> #[trigger] entries@[u] is Some,
        decreases entries.len() - t,
    {
        if entries[t].is_none() {
            return Err(t);
        }
        t += 1;
    }
    let v = recorded_paths(entries, date);
    let r: Result<Vec<String>, usize> = Ok(v);
    assert forall|p: Seq<char>| #[trigger] records(entries@, date@, p) implies
        exists|k: int| 0 <= k < r->Ok_0@.len() && path_key(#[trigger] r->Ok_0@[k]@) == path_key(p) by {
        let k = choose|k: int| 0 <= k < v@.len() && path_key(#[trigger] v@[k]@) == path_key(p);
        assert(r->Ok_0@[k] == v@[k]);
    }
    r
}

/// `records` over a prefix holds over every longer prefix.
proof fn lemma_records_grow(entries: Seq<Option<LedgerEntry>>, date: Seq<char>, p: Seq<char>, i: int, j: int)
    requires
        0 <= i <= j <= entries.len(),
        records(entries.take(i), date, p),
    ensures
        records(entries.take(j), date, p),
{
    let t = choose|t: int| 0 <= t < i && #[trigger] entry_records(entries.take(i)[t], date, p);
    assert(entries.take(j)[t] == entries.take(i)[t]);
}

/// The distinct artifact paths of the entries dated `date`, in order of first
/// appearance (an entry that is `None` names nothing).
#[verifier::spinoff_prover]
#[verifier::rlimit(40)]
fn recorded_paths(entries: &Vec<Option<LedgerEntry>>, date: &str) -> (r: Vec<String>)
    ensures
        forall|k: int| 0 <= k < r@.len() ==> records(entries@, date@, #[trigger] r@[k]@),
        forall|p: Seq<char>| #[trigger] records(entries@, date@, p) ==>
            exists|k: int| 0 <= k < r@.len() && path_key(#[trigger] r@[k]@) == path_key(p),
        forall|k1: int, k2: int| 0 <= k1 < k2 < r@.len() ==> path_key(#[trigger] r@[k1]@) != path_key(#[trigger] r@[k2]@),
        forall|k1: int, k2: int| 0 <= k1 < k2 < r@.len() ==> appears_before(entries@, date@, #[trigger] r@[k1]@, #[trigger] r@[k2]@),
{
    let want = chars_of(date);
    let mut r: Vec<String> = Vec::new();
    let mut i: usize = 0;
    while i < entries.len()
        invariant
            want@ == date@,
            i <= entries.len(),
            forall|k: int| 0 <= k < r@.len() ==> records(entries@.take(i as int), date@, #[trigger] r@[k]@),
            forall|p: Seq<char>| #[trigger] records(entries@.take(i as int), date@, p) ==>
                exists|k: int| 0 <= k < r@.len() && path_key(#[trigger] r@[k]@) == path_key(p),
            forall|k1: int, k2: int| 0 <= k1 < k2 < r@.len() ==> path_key(#[trigger] r@[k1]@) != path_key(#[trigger] r@[k2]@),
            forall|k1: int, k2: int, t: int| 0 <= k1 < k2 < r@.len() && 0 <= t < i
                && #[trigger] entry_records(entries@[t], date@, r@[k2]@)
                ==> records(entries@.take(t), date@, #[trigger] r@[k1]@),
        decreases entries.len() - i,
    {
        let ghost before = r@;
        let ghost pre = entries@.take(i as int);
        let ghost next = entries@.take(i + 1);
        assert forall|k: int| 0 <= k < before.len() implies records(next, date@, #[trigger] before[k]@) by {
            lemma_records_grow(entries@, date@, before[k]@, i as int, i + 1);
        }
        if let Some(e) = &entries[i] {
            if let (Some(d), Some(a)) = (&e.date, &e.artifact_path) {
                if crate::text::chars_eq(&chars_of(d.as_str()), &want) {
                    let mut found = false;
                    let mut k: usize = 0;
                    while k < r.len()
                        invariant
                            k <= r.len(),
                            r@ == before,
                            found ==> exists|t: int| 0 <= t < r@.len() && path_key(#[trigger] r@[t]@) == path_key(a@),
                            !found ==> forall|t: int| 0 <= t < k ==> path_key(#[trigger] r@[t]@) != path_key(a@),
                        decreases r.len() - k,
                    {
                        if same_path(r[k].as_str(), a.as_str()) {
                            found = true;
                        }
                        k += 1;
                    }
                    assert(entry_records(entries@[i as int], date@, a@));
                    assert(next[i as int] == entries@[i as int]);
                    assert(records(next, date@, a@));
                    if !found {
                        proof {
                            // `a` names no earlier entry: it would be in `r` already.
                            assert forall|t: int| 0 <= t < i implies !entry_records(#[trigger] entries@[t], date@, a@) by {
                                if entry_records(entries@[t], date@, a@) {
                                    assert(pre[t] == entries@[t]);
                                    assert(records(pre, date@, a@));
                                }
                            }
                        }
                        r.push(a.clone());
                        assert(r@[r@.len() - 1]@ == a@);
                        proof {
                            assert forall|k1: int, k2: int, t: int| 0 <= k1 < k2 < r@.len() && 0 <= t < i + 1
                                && #[trigger] entry_records(entries@[t], date@, r@[k2]@)
                                implies records(entries@.take(t), date@, #[trigger] r@[k1]@) by {
                                if k2 == r@.len() - 1 {
                                    if t < i {
                                        assert(path_key(r@[k2]@) == path_key(a@));
                                        assert(entry_records(entries@[t], date@, a@));
                                    } else {
                                        assert(r@[k1] == before[k1]);
                                        assert(entries@.take(t) == pre);
                                    }
                                } else {
                                    assert(r@[k1] == before[k1]);
                                    assert(r@[k2] == before[k2]);
                                    if t == i {
                                        assert(path_key(before[k2]@) != path_key(a@));
                                        assert(entries@.take(t) == pre);
                                        assert(records(pre, date@, before[k2]@));
                                        let u = choose|u: int| 0 <= u < i && #[trigger] entry_records(pre[u], date@, before[k2]@);
                                        assert(pre[u] == entries@[u]);
                                        assert(entry_records(entries@[u], date@, before[k2]@));
                                        assert(path_key(before[k2]@) == path_key(a@));
                                    }
                                }
                            }
                        }
                    }
                }
            }
        }
        proof {
            assert forall|p: Seq<char>| #[trigger] records(next, date@, p) implies
                exists|k: int| 0 <= k < r@.len() && path_key(#[trigger] r@[k]@) == path_key(p) by {
                let t = choose|t: int| 0 <= t < i + 1 && #[trigger] entry_records(next[t], date@, p);
                if t < i {
                    assert(pre[t] == next[t]);
                    assert(entry_records(pre[t], date@, p));
                    assert(records(pre, date@, p));
                    let k = choose|k: int| 0 <= k < before.len() && path_key(#[trigger] before[k]@) == path_key(p);
                    assert(r@[k] == before[k]);
                }
            }
        }
        i += 1;
    }
    assert(entries@.take(entries.len() as int) == entries@);
    r
}

/// The crowned bon mot of the last entry dated `date` that has one.
pub open spec fn last_crowned_of(entries: Seq<Option<LedgerEntry>>, date: Seq<char>) -> Option<Seq<char>>
    decreases entries.len(),
{
    if entries.len() == 0 {
        None
    } else {
        match entries.last() {
            Some(e) => match e.crowned {
                Some(c) => if dated(e, date) { Some(c@) } else { last_crowned_of(entries.drop_last(), date) },
                None => last_crowned_of(entries.drop_last(), date),
            },
            None => last_crowned_of(entries.drop_last(), date),
        }
    }
}

/// The entry parsed and is dated `date` with a crowned bon mot.
pub open spec fn crowned_on(o: Option<LedgerEntry>, date: Seq<char>) -> bool {
    o matches Some(e) && dated(e, date) && e.crowned is Some
}

/// `last_crowned_of` is the crowned bon mot of the last entry dated `date` that
/// has one: that entry has it and no later entry dated `date` has one; and it is
/// `None` exactly when no entry dated `date` has one.
pub proof fn lemma_last_crowned_is_last(entries: Seq<Option<LedgerEntry>>, date: Seq<char>)
    ensures
        match last_crowned_of(entries, date) {
            Some(c) => exists|k: int| 0 <= k < entries.len() && #[trigger] crowned_on(entries[k], date)
                && entries[k]->Some_0.crowned->Some_0@ == c
                && forall|t: int| k < t < entries.len() ==> !#[trigger] crowned_on(entries[t], date),
            None => forall|t: int| 0 <= t < entries.len() ==> !#[trigger] crowned_on(entries[t], date),
        },
    decreases entries.len(),
{
    if entries.len() > 0 {
        let init = entries.drop_last();
        lemma_last_crowned_is_last(init, date);
        let n = entries.len() - 1;
        if crowned_on(entries[n], date) {
            assert(entries.last() == entries[n]);
        } else {
            assert forall|t: int| 0 <= t < n implies #[trigger] entries[t] == init[t] by {}
            match last_crowned_of(init, date) {
                Some(c) => {
                    let k = choose|k: int| 0 <= k < init.len() && #[trigger] crowned_on(init[k], date)
                        && init[k]->Some_0.crowned->Some_0@ == c
                        && forall|t: int| k < t < init.len() ==> !#[trigger] crowned_on(init[t], date);
                    assert(entries[k] == init[k]);
                    assert forall|t: int| k < t < entries.len() implies !#[trigger] crowned_on(entries[t], date) by {
                        if t < n {
                            assert(entries[t] == init[t]);
                        }
                    }
                },
                None => {
                    assert forall|t: int| 0 <= t < entries.len() implies !#[trigger] crowned_on(entries[t], date) by {
                        if t < n {
                            assert(entries[t] == init[t]);
                        }
                    }
                },
            }
        }
    }
}

/// The last crowned bon mot recorded for `date`, if any.
pub fn last_crowned(entries: &Vec<Option<LedgerEntry>>, date: &str) -> (r: Option<String>)
    ensures
        match r {
            Some(c) => last_crowned_of(entries@, date@) == Some(c@),
            None => last_crowned_of(entries@, date@) is None,
        },
        match r {
            Some(c) => exists|k: int| 0 <= k < entries@.len() && #[trigger] crowned_on(entries@[k], date@)
                && entries@[k]->Some_0.crowned->Some_0@ == c@
                && forall|t: int| k < t < entries@.len() ==> !#[trigger] crowned_on(entries@[t], date@),
            None => forall|t: int| 0 <= t < entries@.len() ==> !#[trigger] crowned_on(entries@[t], date@),
        },
{
    proof {
        lemma_last_crowned_is_last(entries@, date@);
    }
    let want = chars_of(date);
    let mut last: Option<String> = None;
    let mut i: usize = 0;
    while i < entries.len()
        invariant
            want@ == date@,
            i <= entries.len(),
            match last {
                Some(c) => last_crowned_of(entries@.take(i as int), date@) == Some(c@),
                None => last_crowned_of(entries@.take(i as int), date@) is None,
            },
        decreases entries.len() - i,
    {
        assert(entries@.take(i + 1).drop_last() == entries@.take(i as int));
        assert(entries@.take(i + 1).last() == entries@[i as int]);
        if let Some(e) = &entries[i] {
            if let (Some(d), Some(c)) = (&e.date, &e.crowned) {
                if crate::text::chars_eq(&chars_of(d.as_str()), &want) {
                    last = Some(c.clone());
                }
            }
        }
        i += 1;
    }
    assert(entries@.take(entries.len() as int) == entries@);
    last
}

} // verus!
