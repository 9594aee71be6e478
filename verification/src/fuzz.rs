//! Running the fuzzing harness: what the driver is asked to do.

use vstd::prelude::*;
use vstd::string::*;

use crate::graph;
use crate::graph::Unit;
use crate::text;

verus! {

/// What to run: one campaign, every target in turn, or the corpus.
pub struct Run {
    pub target: Option<String>,
    pub seed: Option<u64>,
    pub iterations: u64,
    pub smoke: bool,
    pub file: Option<String>,
    pub corpus: Option<String>,
}

/// The first word of each of the first `n` lines that has one.
pub open spec fn first_words(lines: Seq<Seq<char>>, n: nat) -> Seq<Seq<char>>
    decreases n,
{
    if n == 0 {
        seq![]
    } else {
        let w = text::words(lines[n - 1], 0);
        if w.len() > 0 {
            first_words(lines, (n - 1) as nat).push(w[0])
        } else {
            first_words(lines, (n - 1) as nat)
        }
    }
}

/// The names in the driver's list of targets: the first word of each line that is not blank.
pub fn parse_list(stdout: &str) -> (r: Vec<String>)
    ensures
        text::views(r@) == first_words(text::lines(stdout@, 0), text::lines(stdout@, 0).len()),
{
    let lines = text::split_lines(text::chars(stdout).as_slice());
    let ghost all = text::lines(stdout@, 0);
    let mut r: Vec<String> = Vec::new();
    let mut i: usize = 0;
    assert(text::views(r@) =~= seq![]);
    while i < lines.len()
        invariant
            i <= lines@.len(),
            text::char_views(lines@) == all,
            text::views(r@) == first_words(all, i as nat),
        decreases lines@.len() - i,
    {
        assert(text::char_views(lines@)[i as int] == lines@[i as int]@);
        let words = text::split_words(lines[i].as_slice());
        if words.len() > 0 {
            assert(text::char_views(words@)[0] == words@[0]@);
            text::push_text(&mut r, text::string(words[0].as_slice()).as_str());
        }
        i += 1;
    }
    r
}

/// What the driver is run for.
#[derive(Debug)]
pub enum Plan {
    /// The corpus is replayed.
    Smoke,
    /// One input, for a target.
    One(String, String),
    /// A campaign for a named target.
    Campaign(String),
    /// A campaign for every target that the driver lists.
    Every,
}

/// What the driver is run for: the corpus before a single input, a single input before a campaign.
pub fn plan(r: &Run) -> (p: Result<Plan, String>)
    ensures
        match p {
            Ok(Plan::Smoke) => r.smoke,
            Ok(Plan::One(target, file)) => !r.smoke && text::opt(r.file) == Some(file@) && text::opt(r.target) == Some(
                target@,
            ),
            Ok(Plan::Campaign(target)) => !r.smoke && r.file is None && text::opt(r.target) == Some(target@),
            Ok(Plan::Every) => !r.smoke && r.file is None && r.target is None,
            Err(e) => !r.smoke && r.file is Some && r.target is None && e@
                == "--file names one input, so it needs --target"@,
        },
{
    if r.smoke {
        return Ok(Plan::Smoke);
    }
    match (&r.file, &r.target) {
        (Some(f), Some(t)) => Ok(Plan::One(t.clone(), f.clone())),
        (Some(_), None) => Err("--file names one input, so it needs --target".to_owned()),
        (None, Some(t)) => Ok(Plan::Campaign(t.clone())),
        (None, None) => Ok(Plan::Every),
    }
}

/// The arguments that replay the corpus.
pub fn smoke_args(corpus: &str) -> (r: Vec<String>)
    ensures
        text::views(r@) == seq!["--smoke"@, "--corpus"@, corpus@],
{
    let mut a: Vec<String> = Vec::new();
    assert(text::views(a@) =~= seq![]);
    text::push_text(&mut a, "--smoke");
    text::push_text(&mut a, "--corpus");
    text::push_text(&mut a, corpus);
    a
}

/// The arguments for one input.
pub fn file_args(target: &str, file: &str, corpus: &str) -> (r: Vec<String>)
    ensures
        text::views(r@) == seq!["--target"@, target@, "--file"@, file@, "--corpus"@, corpus@],
{
    let mut a: Vec<String> = Vec::new();
    assert(text::views(a@) =~= seq![]);
    text::push_text(&mut a, "--target");
    text::push_text(&mut a, target);
    text::push_text(&mut a, "--file");
    text::push_text(&mut a, file);
    text::push_text(&mut a, "--corpus");
    text::push_text(&mut a, corpus);
    a
}

/// The arguments for a campaign.
pub fn campaign_args(target: &str, seed: u64, iterations: u64, corpus: &str) -> (r: Vec<String>)
    ensures
        text::views(r@) == seq![
            "--target"@,
            target@,
            "--seed"@,
            text::decimal(seed as int),
            "--iterations"@,
            text::decimal(iterations as int),
            "--corpus"@,
            corpus@,
        ],
{
    let mut a: Vec<String> = Vec::new();
    assert(text::views(a@) =~= seq![]);
    text::push_text(&mut a, "--target");
    text::push_text(&mut a, target);
    text::push_text(&mut a, "--seed");
    text::push_text(&mut a, text::int_text(seed as i128).as_str());
    text::push_text(&mut a, "--iterations");
    text::push_text(&mut a, text::int_text(iterations as i128).as_str());
    text::push_text(&mut a, "--corpus");
    text::push_text(&mut a, corpus);
    a
}

/// Where the unit that holds the targets stands among the planned ones.
pub fn harness(ordered: &Vec<Unit>) -> (r: Result<usize, String>)
    ensures
        match r {
            Ok(i) => graph::place(graph::nodes(ordered@), "fuzz"@, 0) == Some(i as int) && i < ordered@.len(),
            Err(e) => graph::place(graph::nodes(ordered@), "fuzz"@, 0) is None && e@
                == "no `fuzz` unit in this configuration"@,
        },
{
    proof {
        graph::places_are_inside(graph::nodes(ordered@), "fuzz"@, 0);
    }
    match graph::find_unit(ordered, "fuzz") {
        Some(i) => Ok(i),
        None => Err("no `fuzz` unit in this configuration".to_owned()),
    }
}

/// Where the corpus is: where the options say, or in the tree.
pub fn corpus_dir(r: &Run, root: &str) -> (p: String)
    ensures
        p@ == match r.corpus {
            Some(c) => c@,
            None => graph::below(root@, "lib/fuzz/corpus"@),
        },
{
    match &r.corpus {
        Some(c) => c.clone(),
        None => graph::join_path(root, "lib/fuzz/corpus"),
    }
}

/// Whether no target found a failure; if some did, how many.
pub fn verdict(failed: usize) -> (r: Result<(), String>)
    ensures
        match r {
            Ok(_) => failed == 0,
            Err(e) => failed > 0 && e@ == text::decimal(failed as int) + " target(s) found a failure"@,
        },
{
    if failed == 0 {
        return Ok(());
    }
    let mut e = text::int_text(failed as i128);
    e.append(" target(s) found a failure");
    Err(e)
}

} // verus!
