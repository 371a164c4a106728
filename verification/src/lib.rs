//! `roundtable`: the convener for a daily creative loop. It runs `the-lunch`,
//! `vicious-circle` and `conning-tower` in order and stops at the first broken
//! link; this library holds the decisions of that chain, the publication
//! cadence and the date arithmetic behind it.

use vstd::prelude::*;
use crate::json::{json_member_str, json_string_member};
use crate::paths::{join_path, path_join};
use crate::text::{
    chars_of, joined, lines_of, opt_chars, opt_text, push_str, split_chars, split_on, string_of, text_lines,
    texts,
};

pub mod cadence;
pub mod cli;
pub mod calendar;
pub mod json;
pub mod ledger;
pub mod paths;
pub mod session;
pub mod table;
pub mod text;
pub mod tools;

verus! {

/// A dish as a plain table listing gives it.
#[derive(Debug)]
pub struct Dish {
    pub path: String,
    pub title: String,
}

/// A plain table listing: its dishes.
#[derive(Debug)]
pub struct Table {
    pub dishes: Vec<Dish>,
}

/// The places to look for tool `name`, in order: inside `bin_dir` if given,
/// then each directory of the `PATH` value if given.
pub open spec fn tool_candidates_of(name: Seq<char>, bin_dir: Option<Seq<char>>, path_var: Option<Seq<char>>) -> Seq<Seq<char>> {
    let first: Seq<Seq<char>> = match bin_dir {
        Some(d) => seq![path_join(d, name)],
        None => Seq::empty(),
    };
    let rest: Seq<Seq<char>> = match path_var {
        Some(pv) => split_on(pv, ':').map_values(|d: Seq<char>| path_join(d, name)),
        None => Seq::empty(),
    };
    first + rest
}

/// The index of the first `true` at or after `i`.
pub open spec fn first_true(hits: Seq<bool>, i: int) -> Option<int>
    decreases hits.len() - i,
{
    if i < 0 || i >= hits.len() {
        None
    } else if hits[i] {
        Some(i)
    } else {
        first_true(hits, i + 1)
    }
}

/// `first_true` finds the first `true` from `i` on: the index it gives holds
/// `true` and none before it from `i` does; when it gives none, no index from
/// `i` on holds `true`.
pub proof fn lemma_first_true_is_first(hits: Seq<bool>, i: int)
    requires
        0 <= i,
    ensures
        match first_true(hits, i) {
            Some(j) => i <= j < hits.len() && hits[j] && forall|k: int| i <= k < j ==> !#[trigger] hits[k],
            None => forall|k: int| i <= k < hits.len() ==> !#[trigger] hits[k],
        },
    decreases hits.len() - i,
{
    if i < hits.len() && !hits[i] {
        lemma_first_true_is_first(hits, i + 1);
    }
}

/// The places to look for tool `name`, in the order `resolve_tool` tries them.
pub fn tool_candidates(name: &str, bin_dir: Option<&str>, path_var: Option<&str>) -> (r: Vec<String>)
    ensures
        texts(r@) == tool_candidates_of(name@, opt_chars(bin_dir), opt_chars(path_var)),
{
    let mut r: Vec<String> = Vec::new();
    if let Some(dir) = bin_dir {
        r.push(join_path(dir, name));
    }
    let ghost first = texts(r@);
    if let Some(pv) = path_var {
        let dirs = split_chars(&chars_of(pv), ':');
        let ghost pieces = split_on(pv@, ':');
        let mut i: usize = 0;
        while i < dirs.len()
            invariant
                dirs@.len() == pieces.len(),
                forall|k: int| 0 <= k < pieces.len() ==> (#[trigger] dirs@[k])@ == pieces[k],
                i <= dirs.len(),
                texts(r@) == first + pieces.take(i as int).map_values(|d: Seq<char>| path_join(d, name@)),
            decreases dirs.len() - i,
        {
            let d = string_of(&dirs[i]);
            let ghost before = texts(r@);
            let joined_path = join_path(d.as_str(), name);
            r.push(joined_path);
            assert(texts(r@) == before.push(path_join(pieces[i as int], name@)));
            i += 1;
            assert(pieces.take(i as int).map_values(|d: Seq<char>| path_join(d, name@))
                == pieces.take(i - 1).map_values(|d: Seq<char>| path_join(d, name@)).push(path_join(pieces[i - 1], name@)));
        }
        assert(pieces.take(dirs.len() as int) == pieces);
    }
    r
}

/// Finds tool `name`: the first candidate (see `tool_candidates`) that is a
/// file, where `is_file[i]` tells whether candidate `i` is one.
pub fn resolve_tool(name: &str, bin_dir: Option<&str>, path_var: Option<&str>, is_file: &Vec<bool>) -> (r: Option<String>)
    requires
        is_file@.len() == tool_candidates_of(name@, opt_chars(bin_dir), opt_chars(path_var)).len(),
    ensures
        match first_true(is_file@, 0) {
            Some(i) => r matches Some(p) && p@ == tool_candidates_of(name@, opt_chars(bin_dir), opt_chars(path_var))[i],
            None => r is None,
        },
        r matches Some(p) ==> exists|i: int| 0 <= i < is_file@.len() && is_file@[i]
            && (forall|k: int| 0 <= k < i ==> !#[trigger] is_file@[k])
            && p@ == tool_candidates_of(name@, opt_chars(bin_dir), opt_chars(path_var))[i],
        r is None ==> forall|k: int| 0 <= k < is_file@.len() ==> !#[trigger] is_file@[k],
{
    proof {
        lemma_first_true_is_first(is_file@, 0);
    }
    let cands = tool_candidates(name, bin_dir, path_var);
    let mut i: usize = 0;
    while i < cands.len()
        invariant
            cands@.len() == is_file@.len(),
            texts(cands@) == tool_candidates_of(name@, opt_chars(bin_dir), opt_chars(path_var)),
            i <= cands.len(),
            first_true(is_file@, 0) == first_true(is_file@, i as int),
        decreases cands.len() - i,
    {
        if is_file[i] {
            assert(texts(cands@)[i as int] == cands@[i as int]@);
            proof {
                lemma_first_true_is_first(is_file@, 0);
            }
            return Some(cands[i].clone());
        }
        i += 1;
    }
    None
}

/// Some line of the ledger text names `artifact` under "artifact" and `date`
/// under "date".
pub open spec fn ledger_has(content: Seq<char>, artifact: Seq<char>, date: Seq<char>) -> bool {
    exists|i: int| 0 <= i < text_lines(content).len()
        && json_member_str(#[trigger] text_lines(content)[i], "artifact"@) == Some(artifact)
        && json_member_str(text_lines(content)[i], "date"@) == Some(date)
}

/// The ledger has an entry for `artifact` on `date` exactly when some line,
/// wherever it stands, names both.
pub proof fn lemma_ledger_has_any_line(content: Seq<char>, artifact: Seq<char>, date: Seq<char>)
    ensures
        ledger_has(content, artifact, date) <==> exists|i: int| 0 <= i < text_lines(content).len()
            && json_member_str(#[trigger] text_lines(content)[i], "artifact"@) == Some(artifact)
            && json_member_str(text_lines(content)[i], "date"@) == Some(date),
{
}

/// Whether a ledger line whose "artifact" and "date" members are
/// `artifact_member` and `date_member` records `artifact` on `date`.
pub fn entry_matches(artifact_member: Option<String>, date_member: Option<String>, artifact: &str, date: &str) -> (r: bool)
    ensures
        r == (opt_text(artifact_member) == Some(artifact@) && opt_text(date_member) == Some(date@)),
{
    let matches_artifact = match &artifact_member {
        Some(s) => crate::text::chars_eq(&chars_of(s.as_str()), &chars_of(artifact)),
        None => false,
    };
    let matches_date = match &date_member {
        Some(s) => crate::text::chars_eq(&chars_of(s.as_str()), &chars_of(date)),
        None => false,
    };
    matches_artifact && matches_date
}

/// Whether the ledger text (`None` when it could not be read) already has a
/// line for `artifact` on `date`.
pub fn dedup_check(ledger: Option<&str>, artifact: &str, date: &str) -> (r: bool)
    ensures
        r == match ledger {
            Some(c) => ledger_has(c@, artifact@, date@),
            None => false,
        },
        r <==> (ledger is Some && exists|i: int| 0 <= i < text_lines(ledger->Some_0@).len()
            && json_member_str(#[trigger] text_lines(ledger->Some_0@)[i], "artifact"@) == Some(artifact@)
            && json_member_str(text_lines(ledger->Some_0@)[i], "date"@) == Some(date@)),
{
    proof {
        if let Some(c) = ledger {
            lemma_ledger_has_any_line(c@, artifact@, date@);
        }
    }
    let content = match ledger {
        Some(c) => c,
        None => { return false; },
    };
    assert(ledger == Some(content));
    let lines = lines_of(&chars_of(content));
    let mut i: usize = 0;
    while i < lines.len()
        invariant
            lines@.len() == text_lines(content@).len(),
            forall|k: int| 0 <= k < lines@.len() ==> (#[trigger] lines@[k])@ == text_lines(content@)[k],
            ledger == Some(content),
            i <= lines.len(),
            forall|k: int| 0 <= k < i ==> !(json_member_str(#[trigger] text_lines(content@)[k], "artifact"@) == Some(artifact@)
                && json_member_str(text_lines(content@)[k], "date"@) == Some(date@)),
        decreases lines.len() - i,
    {
        let line = string_of(&lines[i]);
        let a = json_string_member(line.as_str(), "artifact");
        let d = json_string_member(line.as_str(), "date");
        if entry_matches(a, d, artifact, date) {
            assert(line@ == text_lines(content@)[i as int]);
            assert(json_member_str(text_lines(content@)[i as int], "artifact"@) == Some(artifact@));
            assert(json_member_str(text_lines(content@)[i as int], "date"@) == Some(date@));
            return true;
        }
        i += 1;
    }
    false
}

/// What running a stage command amounts to.
pub enum StagePlan {
    /// Dry run: print this line (and report success).
    Print { line: String },
    /// Spawn `program` with `args`.
    Spawn { program: String, args: Vec<String> },
    /// The command is empty.
    Empty,
}

/// Decides how to run stage command `cmd`.
pub fn plan_stage(cmd: &Vec<String>, dry_run: bool) -> (r: StagePlan)
    ensures
        match r {
            StagePlan::Print { line } => dry_run && line@ == "[dry-run] "@ + joined(texts(cmd@), " "@),
            StagePlan::Empty => !dry_run && cmd@.len() == 0,
            StagePlan::Spawn { program, args } => !dry_run && cmd@.len() > 0
                && program@ == cmd@[0]@ && texts(args@) == texts(cmd@.drop_first()),
        },
{
    if dry_run {
        let mut out: Vec<char> = Vec::new();
        push_str(&mut out, "[dry-run] ");
        let body = crate::text::join_strings(cmd, " ");
        push_str(&mut out, body.as_str());
        return StagePlan::Print { line: string_of(&out) };
    }
    if cmd.len() == 0 {
        return StagePlan::Empty;
    }
    let mut args: Vec<String> = Vec::new();
    let mut i: usize = 1;
    while i < cmd.len()
        invariant
            1 <= i <= cmd.len(),
            texts(args@) == texts(cmd@.subrange(1, i as int)),
        decreases cmd.len() - i,
    {
        args.push(cmd[i].clone());
        i += 1;
        assert(texts(cmd@.subrange(1, i as int)) == texts(cmd@.subrange(1, i - 1)).push(cmd@[i - 1]@));
    }
    assert(cmd@.subrange(1, cmd.len() as int) == cmd@.drop_first());
    StagePlan::Spawn { program: cmd[0].clone(), args }
}

} // verus!
