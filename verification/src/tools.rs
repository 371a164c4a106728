//! Finding the tools a session runs: an override variable, `--bin-dir`, or `PATH`.

use vstd::prelude::*;
use crate::first_true;
use crate::paths::{join_path, path_join};
use crate::text::{
    chars_of, has_text, lemma_has_text_middle, opt_chars, opt_text, push_str, split_chars, split_on, string_of, texts,
};

verus! {

/// A tool that `roundtable session` requires.
#[derive(Debug, Clone, Copy, PartialEq, Eq, Structural)]
pub enum Tool {
    TheLunch,
    ViciousCircle,
    ConningTower,
}

impl Tool {
    /// The tool's binary name.
    pub open spec fn spec_name(self) -> Seq<char> {
        match self {
            Tool::TheLunch => "the-lunch"@,
            Tool::ViciousCircle => "vicious-circle"@,
            Tool::ConningTower => "conning-tower"@,
        }
    }

    /// The environment variable that overrides where the tool is.
    pub open spec fn spec_env_key(self) -> Seq<char> {
        match self {
            Tool::TheLunch => "ROUNDTABLE_LUNCH_BIN"@,
            Tool::ViciousCircle => "ROUNDTABLE_CIRCLE_BIN"@,
            Tool::ConningTower => "ROUNDTABLE_TOWER_BIN"@,
        }
    }

    /// The tool's binary name.
    pub fn name(self) -> (r: &'static str)
        ensures
            r@ == self.spec_name(),
    {
        match self {
            Tool::TheLunch => "the-lunch",
            Tool::ViciousCircle => "vicious-circle",
            Tool::ConningTower => "conning-tower",
        }
    }

    /// The environment variable that overrides where the tool is.
    pub fn env_key(self) -> (r: &'static str)
        ensures
            r@ == self.spec_env_key(),
    {
        match self {
            Tool::TheLunch => "ROUNDTABLE_LUNCH_BIN",
            Tool::ViciousCircle => "ROUNDTABLE_CIRCLE_BIN",
            Tool::ConningTower => "ROUNDTABLE_TOWER_BIN",
        }
    }
}

/// The tools `roundtable session` requires, in the order they are resolved.
pub open spec fn spec_required_tools() -> Seq<Tool> {
    seq![Tool::TheLunch, Tool::ViciousCircle, Tool::ConningTower]
}

/// The tools `roundtable session` requires, in the order they are resolved.
pub fn required_tools() -> (r: Vec<Tool>)
    ensures
        r@ == spec_required_tools(),
{
    vec![Tool::TheLunch, Tool::ViciousCircle, Tool::ConningTower]
}

/// The places to look for a tool, in order: the override value if set, then
/// the tool inside `bin_dir` if given, else the tool in each `PATH` directory.
pub open spec fn bin_candidates_of(name: Seq<char>, env_value: Option<Seq<char>>, bin_dir: Option<Seq<char>>, path_var: Seq<char>) -> Seq<Seq<char>> {
    let first: Seq<Seq<char>> = match env_value {
        Some(v) => seq![v],
        None => Seq::empty(),
    };
    let rest: Seq<Seq<char>> = match bin_dir {
        Some(d) => seq![path_join(d, name)],
        None => split_on(path_var, ':').map_values(|d: Seq<char>| path_join(d, name)),
    };
    first + rest
}

/// The message for a tool missing from `--bin-dir`.
pub open spec fn not_in_bin_dir_message(name: Seq<char>, dir: Seq<char>) -> Seq<char> {
    "required binary `"@ + name + "` not found in --bin-dir `"@ + dir + "`"@
}

/// The message for a tool missing from `PATH`.
pub open spec fn not_on_path_message(name: Seq<char>) -> Seq<char> {
    "required binary `"@ + name + "` not found on PATH; install it or use --bin-dir"@
}

/// Where a tool resolves to, given which candidates exist (`hits`): the
/// override if it exists; else, with `--bin-dir`, the tool there or an error;
/// else the first `PATH` hit or an error.
pub open spec fn resolved_bin(name: Seq<char>, env_value: Option<Seq<char>>, bin_dir: Option<Seq<char>>, path_var: Seq<char>, hits: Seq<bool>) -> Result<Seq<char>, Seq<char>> {
    let cands = bin_candidates_of(name, env_value, bin_dir, path_var);
    let off: int = if env_value is Some { 1 } else { 0 };
    if env_value is Some && hits[0] {
        Ok(cands[0])
    } else {
        match bin_dir {
            Some(dir) => if hits[off] { Ok(cands[off]) } else { Err(not_in_bin_dir_message(name, dir)) },
            None => match first_true(hits, off) {
                Some(i) => Ok(cands[i]),
                None => Err(not_on_path_message(name)),
            },
        }
    }
}

/// The places to look for `tool`, in the order `resolve_bin` tries them.
pub fn bin_candidates(tool: Tool, env_value: Option<&str>, bin_dir: Option<&str>, path_var: &str) -> (r: Vec<String>)
    ensures
        texts(r@) == bin_candidates_of(tool.spec_name(), opt_chars(env_value), opt_chars(bin_dir), path_var@),
{
    let name = tool.name();
    let mut r: Vec<String> = Vec::new();
    if let Some(v) = env_value {
        r.push(string_of(&chars_of(v)));
    }
    let ghost first = texts(r@);
    if let Some(dir) = bin_dir {
        r.push(join_path(dir, name));
    } else {
        let dirs = split_chars(&chars_of(path_var), ':');
        let ghost pieces = split_on(path_var@, ':');
        let mut i: usize = 0;
        while i < dirs.len()
            invariant
                dirs@.len() == pieces.len(),
                forall|k: int| 0 <= k < pieces.len() ==> (#[trigger] dirs@[k])@ == pieces[k],
                i <= dirs.len(),
                name@ == tool.spec_name(),
                texts(r@) == first + pieces.take(i as int).map_values(|d: Seq<char>| path_join(d, tool.spec_name())),
            decreases dirs.len() - i,
        {
            let d = string_of(&dirs[i]);
            let ghost before = texts(r@);
            let p = join_path(d.as_str(), name);
            r.push(p);
            assert(texts(r@) == before.push(path_join(pieces[i as int], tool.spec_name())));
            i += 1;
            assert(pieces.take(i as int).map_values(|d: Seq<char>| path_join(d, tool.spec_name()))
                == pieces.take(i - 1).map_values(|d: Seq<char>| path_join(d, tool.spec_name())).push(path_join(pieces[i - 1], tool.spec_name())));
        }
        assert(pieces.take(dirs.len() as int) == pieces);
    }
    r
}

/// Resolves `tool` to a path: `env_value` is the override variable's value if
/// set, and `hits[i]` tells whether candidate `i` of `bin_candidates` exists.
pub fn resolve_bin(tool: Tool, env_value: Option<&str>, bin_dir: Option<&str>, path_var: &str, hits: &Vec<bool>) -> (r: Result<String, String>)
    requires
        hits@.len() == bin_candidates_of(tool.spec_name(), opt_chars(env_value), opt_chars(bin_dir), path_var@).len(),
    ensures
        text_result_string(r) == resolved_bin(tool.spec_name(), opt_chars(env_value), opt_chars(bin_dir), path_var@, hits@),
        env_value is Some && hits@[0] ==> (r matches Ok(p) && p@ == env_value->Some_0@),
        ({
            let cands = bin_candidates_of(tool.spec_name(), opt_chars(env_value), opt_chars(bin_dir), path_var@);
            let off: int = if env_value is Some { 1 } else { 0 };
            !(env_value is Some && hits@[0]) ==> match bin_dir {
                Some(dir) => (r is Ok <==> hits@[off]) && (r matches Ok(p) ==> p@ == path_join(dir@, tool.spec_name())),
                None => match r {
                    Ok(p) => exists|i: int| off <= i < hits@.len() && hits@[i]
                        && (forall|k: int| off <= k < i ==> !#[trigger] hits@[k]) && p@ == cands[i],
                    Err(_) => forall|k: int| off <= k < hits@.len() ==> !#[trigger] hits@[k],
                },
            }
        }),
{
    let name = tool.name();
    let cands = bin_candidates(tool, env_value, bin_dir, path_var);
    proof {
        crate::text::lemma_split_nonempty(path_var@, ':');
    }
    let off: usize = if env_value.is_some() { 1 } else { 0 };
    if env_value.is_some() && hits[0] {
        assert(texts(cands@)[0] == cands@[0]@);
        return Ok(cands[0].clone());
    }
    if let Some(dir) = bin_dir {
        if hits[off] {
            assert(texts(cands@)[off as int] == cands@[off as int]@);
            return Ok(cands[off].clone());
        }
        let mut msg: Vec<char> = Vec::new();
        push_str(&mut msg, "required binary `");
        push_str(&mut msg, name);
        push_str(&mut msg, "` not found in --bin-dir `");
        push_str(&mut msg, dir);
        push_str(&mut msg, "`");
        return Err(string_of(&msg));
    }
    let mut i: usize = off;
    while i < cands.len()
        invariant
            cands@.len() == hits@.len(),
            texts(cands@) == bin_candidates_of(tool.spec_name(), opt_chars(env_value), opt_chars(bin_dir), path_var@),
            bin_dir is None,
            !(env_value is Some && hits@[0]),
            off as int == (if env_value is Some { 1int } else { 0int }),
            off <= i <= cands.len(),
            first_true(hits@, off as int) == first_true(hits@, i as int),
        decreases cands.len() - i,
    {
        if hits[i] {
            assert(texts(cands@)[i as int] == cands@[i as int]@);
            proof {
                crate::lemma_first_true_is_first(hits@, off as int);
            }
            return Ok(cands[i].clone());
        }
        i += 1;
    }
    proof {
        crate::lemma_first_true_is_first(hits@, off as int);
    }
    let mut msg: Vec<char> = Vec::new();
    push_str(&mut msg, "required binary `");
    push_str(&mut msg, name);
    push_str(&mut msg, "` not found on PATH; install it or use --bin-dir");
    Err(string_of(&msg))
}

/// A result of strings seen through their characters.
pub open spec fn text_result_string(r: Result<String, String>) -> Result<Seq<char>, Seq<char>> {
    match r {
        Ok(s) => Ok(s@),
        Err(e) => Err(e@),
    }
}

/// What was found out about where one tool may be: the override variable's
/// value if set, and which of its candidates (see `bin_candidates`) exist.
#[derive(Debug)]
pub struct ToolProbe {
    pub env_value: Option<String>,
    pub hits: Vec<bool>,
}

/// The probe matches the candidates of `tool`.
pub open spec fn probe_fits(tool: Tool, p: ToolProbe, bin_dir: Option<Seq<char>>, path_var: Seq<char>) -> bool {
    p.hits@.len() == bin_candidates_of(tool.spec_name(), opt_text(p.env_value), bin_dir, path_var).len()
}

/// Resolving the required tools in order from tool `i` on: their paths, or
/// the message of the first one that cannot be found.
pub open spec fn resolved_tools(probes: Seq<ToolProbe>, bin_dir: Option<Seq<char>>, path_var: Seq<char>, i: int) -> Result<Seq<Seq<char>>, Seq<char>>
    decreases 3 - i,
{
    if i < 0 || i >= 3 {
        Ok(Seq::empty())
    } else {
        let tool = spec_required_tools()[i];
        match resolved_bin(tool.spec_name(), opt_text(probes[i].env_value), bin_dir, path_var, probes[i].hits@) {
            Err(msg) => Err(msg),
            Ok(p) => match resolved_tools(probes, bin_dir, path_var, i + 1) {
                Err(msg) => Err(msg),
                Ok(rest) => Ok(seq![p] + rest),
            },
        }
    }
}

/// The resolution of required tool `i` on its own.
pub open spec fn tool_resolution(probes: Seq<ToolProbe>, bin_dir: Option<Seq<char>>, path_var: Seq<char>, i: int) -> Result<Seq<char>, Seq<char>> {
    resolved_bin(spec_required_tools()[i].spec_name(), opt_text(probes[i].env_value), bin_dir, path_var, probes[i].hits@)
}

/// Resolving the required tools from tool `i` on succeeds exactly when each of
/// them resolves, giving their paths in order; otherwise it fails with the
/// message of the first one that does not.
pub proof fn lemma_resolved_tools_exact(probes: Seq<ToolProbe>, bin_dir: Option<Seq<char>>, path_var: Seq<char>, i: int)
    requires
        0 <= i <= 3,
    ensures
        match resolved_tools(probes, bin_dir, path_var, i) {
            Ok(paths) => paths.len() == 3 - i && forall|t: int| i <= t < 3
                ==> #[trigger] tool_resolution(probes, bin_dir, path_var, t) == Ok::<Seq<char>, Seq<char>>(paths[t - i]),
            Err(msg) => exists|t: int| i <= t < 3 && #[trigger] tool_resolution(probes, bin_dir, path_var, t) == Err::<Seq<char>, Seq<char>>(msg)
                && forall|u: int| i <= u < t ==> (#[trigger] tool_resolution(probes, bin_dir, path_var, u)) is Ok,
        },
    decreases 3 - i,
{
    if i < 3 {
        lemma_resolved_tools_exact(probes, bin_dir, path_var, i + 1);
        match tool_resolution(probes, bin_dir, path_var, i) {
            Err(msg) => {
                assert(tool_resolution(probes, bin_dir, path_var, i) == Err::<Seq<char>, Seq<char>>(msg));
            },
            Ok(p) => {
                match resolved_tools(probes, bin_dir, path_var, i + 1) {
                    Ok(rest) => {
                        let all = seq![p] + rest;
                        assert forall|t: int| i <= t < 3 implies
                            #[trigger] tool_resolution(probes, bin_dir, path_var, t) == Ok::<Seq<char>, Seq<char>>(all[t - i]) by {
                            if t > i {
                                assert(all[t - i] == rest[t - (i + 1)]);
                            }
                        }
                    },
                    Err(msg) => {
                        let t = choose|t: int| i + 1 <= t < 3 && #[trigger] tool_resolution(probes, bin_dir, path_var, t) == Err::<Seq<char>, Seq<char>>(msg)
                            && forall|u: int| i + 1 <= u < t ==> (#[trigger] tool_resolution(probes, bin_dir, path_var, u)) is Ok;
                        assert forall|u: int| i <= u < t implies (#[trigger] tool_resolution(probes, bin_dir, path_var, u)) is Ok by {}
                    },
                }
            },
        }
    }
}

/// Resolves the required tools in order (`probes[i]` for the `i`-th of
/// `required_tools`): all their paths, or the message of the first one missing.
pub fn resolve_required(probes: &Vec<ToolProbe>, bin_dir: Option<&str>, path_var: &str) -> (r: Result<Vec<String>, String>)
    requires
        probes@.len() == 3,
        forall|i: int| 0 <= i < 3 ==> probe_fits(spec_required_tools()[i], #[trigger] probes@[i], opt_chars(bin_dir), path_var@),
    ensures
        match r {
            Ok(paths) => resolved_tools(probes@, opt_chars(bin_dir), path_var@, 0) == Ok::<Seq<Seq<char>>, Seq<char>>(texts(paths@)),
            Err(msg) => resolved_tools(probes@, opt_chars(bin_dir), path_var@, 0) == Err::<Seq<Seq<char>>, Seq<char>>(msg@),
        },
        match r {
            Ok(paths) => paths@.len() == 3 && forall|t: int| 0 <= t < 3
                ==> #[trigger] tool_resolution(probes@, opt_chars(bin_dir), path_var@, t) == Ok::<Seq<char>, Seq<char>>(paths@[t]@),
            Err(msg) => exists|t: int| 0 <= t < 3
                && #[trigger] tool_resolution(probes@, opt_chars(bin_dir), path_var@, t) == Err::<Seq<char>, Seq<char>>(msg@)
                && forall|u: int| 0 <= u < t ==> (#[trigger] tool_resolution(probes@, opt_chars(bin_dir), path_var@, u)) is Ok,
        },
{
    proof {
        lemma_resolved_tools_exact(probes@, opt_chars(bin_dir), path_var@, 0);
    }
    let tools = required_tools();
    let mut paths: Vec<String> = Vec::new();
    let mut i: usize = 0;
    while i < 3
        invariant
            probes@.len() == 3,
            tools@ == spec_required_tools(),
            forall|k: int| 0 <= k < 3 ==> probe_fits(spec_required_tools()[k], #[trigger] probes@[k], opt_chars(bin_dir), path_var@),
            i <= 3,
            resolved_tools(probes@, opt_chars(bin_dir), path_var@, 0) == match resolved_tools(probes@, opt_chars(bin_dir), path_var@, i as int) {
                Err(msg) => Err(msg),
                Ok(rest) => Ok::<Seq<Seq<char>>, Seq<char>>(texts(paths@) + rest),
            },
        decreases 3 - i,
    {
        let probe = &probes[i];
        let env_value: Option<&str> = match &probe.env_value {
            Some(v) => Some(v.as_str()),
            None => None,
        };
        assert(opt_chars(env_value) == opt_text(probe.env_value));
        assert(probe_fits(spec_required_tools()[i as int], probes@[i as int], opt_chars(bin_dir), path_var@));
        match resolve_bin(tools[i], env_value, bin_dir, path_var, &probe.hits) {
            Ok(p) => {
                let ghost before = texts(paths@);
                paths.push(p);
                assert(texts(paths@) == before.push(p@));
                proof {
                    let tail = resolved_tools(probes@, opt_chars(bin_dir), path_var@, i + 1);
                    if let Ok(rest) = tail {
                        assert(before + (seq![p@] + rest) == before.push(p@) + rest);
                    }
                }
            },
            Err(msg) => {
                proof {
                    lemma_resolved_tools_exact(probes@, opt_chars(bin_dir), path_var@, 0);
                }
                return Err(msg);
            },
        }
        i += 1;
    }
    assert(texts(paths@) + Seq::<Seq<char>>::empty() == texts(paths@));
    Ok(paths)
}

/// A tool that cannot be found fails with a message naming it.
pub proof fn lemma_missing_tool_named(tool: Tool, env_value: Option<Seq<char>>, bin_dir: Option<Seq<char>>, path_var: Seq<char>, hits: Seq<bool>)
    requires
        hits.len() == bin_candidates_of(tool.spec_name(), env_value, bin_dir, path_var).len(),
    ensures
        resolved_bin(tool.spec_name(), env_value, bin_dir, path_var, hits) matches Err(message)
            ==> has_text(message, tool.spec_name()),
{
    let name = tool.spec_name();
    match bin_dir {
        Some(dir) => {
            lemma_has_text_middle("required binary `"@, name, "` not found in --bin-dir `"@ + dir + "`"@);
            assert(not_in_bin_dir_message(name, dir) == "required binary `"@ + name + ("` not found in --bin-dir `"@ + dir + "`"@));
        },
        None => {
            lemma_has_text_middle("required binary `"@, name, "` not found on PATH; install it or use --bin-dir"@);
        },
    }
}

} // verus!
