//! What the words of a command line mean, said of the words.

use vstd::prelude::*;
use vstd::string::*;

use crate::commands;
use crate::commands::Command;
use crate::configure;
use crate::kcfg::random::Mode;
use crate::kcfg::resolve;
use crate::options;
use crate::options::Options;
use crate::text;

verus! {

/// No two options are spelled the same.
proof fn options_differ()
    ensures
        "--preset"@ != "--only"@,
        "--preset"@ != "--compare"@,
        "--preset"@ != "--save"@,
        "--preset"@ != "--corpus"@,
        "--preset"@ != "--file"@,
        "--preset"@ != "--count"@,
        "--preset"@ != "--iterations"@,
        "--preset"@ != "--seed"@,
        "--preset"@ != "--timeout"@,
        "--preset"@ != "--host"@,
        "--preset"@ != "--verbose"@,
        "--preset"@ != "-v"@,
        "--preset"@ != "--random"@,
        "--preset"@ != "--update-baseline"@,
        "--preset"@ != "--smoke"@,
        "--preset"@ != "--allyes"@,
        "--preset"@ != "--allno"@,
        "--preset"@ != "--set"@,
        "--preset"@ != "--duration"@,
        "--preset"@ != "--target"@,
        "--only"@ != "--compare"@,
        "--only"@ != "--save"@,
        "--only"@ != "--corpus"@,
        "--only"@ != "--file"@,
        "--only"@ != "--count"@,
        "--only"@ != "--iterations"@,
        "--only"@ != "--seed"@,
        "--only"@ != "--timeout"@,
        "--only"@ != "--host"@,
        "--only"@ != "--verbose"@,
        "--only"@ != "-v"@,
        "--only"@ != "--random"@,
        "--only"@ != "--update-baseline"@,
        "--only"@ != "--smoke"@,
        "--only"@ != "--allyes"@,
        "--only"@ != "--allno"@,
        "--only"@ != "--set"@,
        "--only"@ != "--duration"@,
        "--only"@ != "--target"@,
        "--compare"@ != "--save"@,
        "--compare"@ != "--corpus"@,
        "--compare"@ != "--file"@,
        "--compare"@ != "--count"@,
        "--compare"@ != "--iterations"@,
        "--compare"@ != "--seed"@,
        "--compare"@ != "--timeout"@,
        "--compare"@ != "--host"@,
        "--compare"@ != "--verbose"@,
        "--compare"@ != "-v"@,
        "--compare"@ != "--random"@,
        "--compare"@ != "--update-baseline"@,
        "--compare"@ != "--smoke"@,
        "--compare"@ != "--allyes"@,
        "--compare"@ != "--allno"@,
        "--compare"@ != "--set"@,
        "--compare"@ != "--duration"@,
        "--compare"@ != "--target"@,
        "--save"@ != "--corpus"@,
        "--save"@ != "--file"@,
        "--save"@ != "--count"@,
        "--save"@ != "--iterations"@,
        "--save"@ != "--seed"@,
        "--save"@ != "--timeout"@,
        "--save"@ != "--host"@,
        "--save"@ != "--verbose"@,
        "--save"@ != "-v"@,
        "--save"@ != "--random"@,
        "--save"@ != "--update-baseline"@,
        "--save"@ != "--smoke"@,
        "--save"@ != "--allyes"@,
        "--save"@ != "--allno"@,
        "--save"@ != "--set"@,
        "--save"@ != "--duration"@,
        "--save"@ != "--target"@,
        "--corpus"@ != "--file"@,
        "--corpus"@ != "--count"@,
        "--corpus"@ != "--iterations"@,
        "--corpus"@ != "--seed"@,
        "--corpus"@ != "--timeout"@,
        "--corpus"@ != "--host"@,
        "--corpus"@ != "--verbose"@,
        "--corpus"@ != "-v"@,
        "--corpus"@ != "--random"@,
        "--corpus"@ != "--update-baseline"@,
        "--corpus"@ != "--smoke"@,
        "--corpus"@ != "--allyes"@,
        "--corpus"@ != "--allno"@,
        "--corpus"@ != "--set"@,
        "--corpus"@ != "--duration"@,
        "--corpus"@ != "--target"@,
        "--file"@ != "--count"@,
        "--file"@ != "--iterations"@,
        "--file"@ != "--seed"@,
        "--file"@ != "--timeout"@,
        "--file"@ != "--host"@,
        "--file"@ != "--verbose"@,
        "--file"@ != "-v"@,
        "--file"@ != "--random"@,
        "--file"@ != "--update-baseline"@,
        "--file"@ != "--smoke"@,
        "--file"@ != "--allyes"@,
        "--file"@ != "--allno"@,
        "--file"@ != "--set"@,
        "--file"@ != "--duration"@,
        "--file"@ != "--target"@,
        "--count"@ != "--iterations"@,
        "--count"@ != "--seed"@,
        "--count"@ != "--timeout"@,
        "--count"@ != "--host"@,
        "--count"@ != "--verbose"@,
        "--count"@ != "-v"@,
        "--count"@ != "--random"@,
        "--count"@ != "--update-baseline"@,
        "--count"@ != "--smoke"@,
        "--count"@ != "--allyes"@,
        "--count"@ != "--allno"@,
        "--count"@ != "--set"@,
        "--count"@ != "--duration"@,
        "--count"@ != "--target"@,
        "--iterations"@ != "--seed"@,
        "--iterations"@ != "--timeout"@,
        "--iterations"@ != "--host"@,
        "--iterations"@ != "--verbose"@,
        "--iterations"@ != "-v"@,
        "--iterations"@ != "--random"@,
        "--iterations"@ != "--update-baseline"@,
        "--iterations"@ != "--smoke"@,
        "--iterations"@ != "--allyes"@,
        "--iterations"@ != "--allno"@,
        "--iterations"@ != "--set"@,
        "--iterations"@ != "--duration"@,
        "--iterations"@ != "--target"@,
        "--seed"@ != "--timeout"@,
        "--seed"@ != "--host"@,
        "--seed"@ != "--verbose"@,
        "--seed"@ != "-v"@,
        "--seed"@ != "--random"@,
        "--seed"@ != "--update-baseline"@,
        "--seed"@ != "--smoke"@,
        "--seed"@ != "--allyes"@,
        "--seed"@ != "--allno"@,
        "--seed"@ != "--set"@,
        "--seed"@ != "--duration"@,
        "--seed"@ != "--target"@,
        "--timeout"@ != "--host"@,
        "--timeout"@ != "--verbose"@,
        "--timeout"@ != "-v"@,
        "--timeout"@ != "--random"@,
        "--timeout"@ != "--update-baseline"@,
        "--timeout"@ != "--smoke"@,
        "--timeout"@ != "--allyes"@,
        "--timeout"@ != "--allno"@,
        "--timeout"@ != "--set"@,
        "--timeout"@ != "--duration"@,
        "--timeout"@ != "--target"@,
        "--host"@ != "--verbose"@,
        "--host"@ != "-v"@,
        "--host"@ != "--random"@,
        "--host"@ != "--update-baseline"@,
        "--host"@ != "--smoke"@,
        "--host"@ != "--allyes"@,
        "--host"@ != "--allno"@,
        "--host"@ != "--set"@,
        "--host"@ != "--duration"@,
        "--host"@ != "--target"@,
        "--verbose"@ != "-v"@,
        "--verbose"@ != "--random"@,
        "--verbose"@ != "--update-baseline"@,
        "--verbose"@ != "--smoke"@,
        "--verbose"@ != "--allyes"@,
        "--verbose"@ != "--allno"@,
        "--verbose"@ != "--set"@,
        "--verbose"@ != "--duration"@,
        "--verbose"@ != "--target"@,
        "-v"@ != "--random"@,
        "-v"@ != "--update-baseline"@,
        "-v"@ != "--smoke"@,
        "-v"@ != "--allyes"@,
        "-v"@ != "--allno"@,
        "-v"@ != "--set"@,
        "-v"@ != "--duration"@,
        "-v"@ != "--target"@,
        "--random"@ != "--update-baseline"@,
        "--random"@ != "--smoke"@,
        "--random"@ != "--allyes"@,
        "--random"@ != "--allno"@,
        "--random"@ != "--set"@,
        "--random"@ != "--duration"@,
        "--random"@ != "--target"@,
        "--update-baseline"@ != "--smoke"@,
        "--update-baseline"@ != "--allyes"@,
        "--update-baseline"@ != "--allno"@,
        "--update-baseline"@ != "--set"@,
        "--update-baseline"@ != "--duration"@,
        "--update-baseline"@ != "--target"@,
        "--smoke"@ != "--allyes"@,
        "--smoke"@ != "--allno"@,
        "--smoke"@ != "--set"@,
        "--smoke"@ != "--duration"@,
        "--smoke"@ != "--target"@,
        "--allyes"@ != "--allno"@,
        "--allyes"@ != "--set"@,
        "--allyes"@ != "--duration"@,
        "--allyes"@ != "--target"@,
        "--allno"@ != "--set"@,
        "--allno"@ != "--duration"@,
        "--allno"@ != "--target"@,
        "--set"@ != "--duration"@,
        "--set"@ != "--target"@,
        "--duration"@ != "--target"@,
{
    reveal_strlit("--preset");
    reveal_strlit("--only");
    reveal_strlit("--compare");
    reveal_strlit("--save");
    reveal_strlit("--corpus");
    reveal_strlit("--file");
    reveal_strlit("--count");
    reveal_strlit("--iterations");
    reveal_strlit("--seed");
    reveal_strlit("--timeout");
    reveal_strlit("--host");
    reveal_strlit("--verbose");
    reveal_strlit("-v");
    reveal_strlit("--random");
    reveal_strlit("--update-baseline");
    reveal_strlit("--smoke");
    reveal_strlit("--allyes");
    reveal_strlit("--allno");
    reveal_strlit("--set");
    reveal_strlit("--duration");
    reveal_strlit("--target");
    assert("--preset"@.len() != "--only"@.len());
    assert("--preset"@.len() != "--compare"@.len());
    assert("--preset"@.len() != "--save"@.len());
    assert("--preset"@[2] != "--corpus"@[2]);
    assert("--preset"@.len() != "--file"@.len());
    assert("--preset"@.len() != "--count"@.len());
    assert("--preset"@.len() != "--iterations"@.len());
    assert("--preset"@.len() != "--seed"@.len());
    assert("--preset"@.len() != "--timeout"@.len());
    assert("--preset"@.len() != "--host"@.len());
    assert("--preset"@.len() != "--verbose"@.len());
    assert("--preset"@.len() != "-v"@.len());
    assert("--preset"@[2] != "--random"@[2]);
    assert("--preset"@.len() != "--update-baseline"@.len());
    assert("--preset"@.len() != "--smoke"@.len());
    assert("--preset"@[2] != "--allyes"@[2]);
    assert("--preset"@.len() != "--allno"@.len());
    assert("--preset"@.len() != "--set"@.len());
    assert("--preset"@.len() != "--duration"@.len());
    assert("--preset"@[2] != "--target"@[2]);
    assert("--only"@.len() != "--compare"@.len());
    assert("--only"@[2] != "--save"@[2]);
    assert("--only"@.len() != "--corpus"@.len());
    assert("--only"@[2] != "--file"@[2]);
    assert("--only"@.len() != "--count"@.len());
    assert("--only"@.len() != "--iterations"@.len());
    assert("--only"@[2] != "--seed"@[2]);
    assert("--only"@.len() != "--timeout"@.len());
    assert("--only"@[2] != "--host"@[2]);
    assert("--only"@.len() != "--verbose"@.len());
    assert("--only"@.len() != "-v"@.len());
    assert("--only"@.len() != "--random"@.len());
    assert("--only"@.len() != "--update-baseline"@.len());
    assert("--only"@.len() != "--smoke"@.len());
    assert("--only"@.len() != "--allyes"@.len());
    assert("--only"@.len() != "--allno"@.len());
    assert("--only"@.len() != "--set"@.len());
    assert("--only"@.len() != "--duration"@.len());
    assert("--only"@.len() != "--target"@.len());
    assert("--compare"@.len() != "--save"@.len());
    assert("--compare"@.len() != "--corpus"@.len());
    assert("--compare"@.len() != "--file"@.len());
    assert("--compare"@.len() != "--count"@.len());
    assert("--compare"@.len() != "--iterations"@.len());
    assert("--compare"@.len() != "--seed"@.len());
    assert("--compare"@[2] != "--timeout"@[2]);
    assert("--compare"@.len() != "--host"@.len());
    assert("--compare"@[2] != "--verbose"@[2]);
    assert("--compare"@.len() != "-v"@.len());
    assert("--compare"@.len() != "--random"@.len());
    assert("--compare"@.len() != "--update-baseline"@.len());
    assert("--compare"@.len() != "--smoke"@.len());
    assert("--compare"@.len() != "--allyes"@.len());
    assert("--compare"@.len() != "--allno"@.len());
    assert("--compare"@.len() != "--set"@.len());
    assert("--compare"@.len() != "--duration"@.len());
    assert("--compare"@.len() != "--target"@.len());
    assert("--save"@.len() != "--corpus"@.len());
    assert("--save"@[2] != "--file"@[2]);
    assert("--save"@.len() != "--count"@.len());
    assert("--save"@.len() != "--iterations"@.len());
    assert("--save"@[3] != "--seed"@[3]);
    assert("--save"@.len() != "--timeout"@.len());
    assert("--save"@[2] != "--host"@[2]);
    assert("--save"@.len() != "--verbose"@.len());
    assert("--save"@.len() != "-v"@.len());
    assert("--save"@.len() != "--random"@.len());
    assert("--save"@.len() != "--update-baseline"@.len());
    assert("--save"@.len() != "--smoke"@.len());
    assert("--save"@.len() != "--allyes"@.len());
    assert("--save"@.len() != "--allno"@.len());
    assert("--save"@.len() != "--set"@.len());
    assert("--save"@.len() != "--duration"@.len());
    assert("--save"@.len() != "--target"@.len());
    assert("--corpus"@.len() != "--file"@.len());
    assert("--corpus"@.len() != "--count"@.len());
    assert("--corpus"@.len() != "--iterations"@.len());
    assert("--corpus"@.len() != "--seed"@.len());
    assert("--corpus"@.len() != "--timeout"@.len());
    assert("--corpus"@.len() != "--host"@.len());
    assert("--corpus"@.len() != "--verbose"@.len());
    assert("--corpus"@.len() != "-v"@.len());
    assert("--corpus"@[2] != "--random"@[2]);
    assert("--corpus"@.len() != "--update-baseline"@.len());
    assert("--corpus"@.len() != "--smoke"@.len());
    assert("--corpus"@[2] != "--allyes"@[2]);
    assert("--corpus"@.len() != "--allno"@.len());
    assert("--corpus"@.len() != "--set"@.len());
    assert("--corpus"@.len() != "--duration"@.len());
    assert("--corpus"@[2] != "--target"@[2]);
    assert("--file"@.len() != "--count"@.len());
    assert("--file"@.len() != "--iterations"@.len());
    assert("--file"@[2] != "--seed"@[2]);
    assert("--file"@.len() != "--timeout"@.len());
    assert("--file"@[2] != "--host"@[2]);
    assert("--file"@.len() != "--verbose"@.len());
    assert("--file"@.len() != "-v"@.len());
    assert("--file"@.len() != "--random"@.len());
    assert("--file"@.len() != "--update-baseline"@.len());
    assert("--file"@.len() != "--smoke"@.len());
    assert("--file"@.len() != "--allyes"@.len());
    assert("--file"@.len() != "--allno"@.len());
    assert("--file"@.len() != "--set"@.len());
    assert("--file"@.len() != "--duration"@.len());
    assert("--file"@.len() != "--target"@.len());
    assert("--count"@.len() != "--iterations"@.len());
    assert("--count"@.len() != "--seed"@.len());
    assert("--count"@.len() != "--timeout"@.len());
    assert("--count"@.len() != "--host"@.len());
    assert("--count"@.len() != "--verbose"@.len());
    assert("--count"@.len() != "-v"@.len());
    assert("--count"@.len() != "--random"@.len());
    assert("--count"@.len() != "--update-baseline"@.len());
    assert("--count"@[2] != "--smoke"@[2]);
    assert("--count"@.len() != "--allyes"@.len());
    assert("--count"@[2] != "--allno"@[2]);
    assert("--count"@.len() != "--set"@.len());
    assert("--count"@.len() != "--duration"@.len());
    assert("--count"@.len() != "--target"@.len());
    assert("--iterations"@.len() != "--seed"@.len());
    assert("--iterations"@.len() != "--timeout"@.len());
    assert("--iterations"@.len() != "--host"@.len());
    assert("--iterations"@.len() != "--verbose"@.len());
    assert("--iterations"@.len() != "-v"@.len());
    assert("--iterations"@.len() != "--random"@.len());
    assert("--iterations"@.len() != "--update-baseline"@.len());
    assert("--iterations"@.len() != "--smoke"@.len());
    assert("--iterations"@.len() != "--allyes"@.len());
    assert("--iterations"@.len() != "--allno"@.len());
    assert("--iterations"@.len() != "--set"@.len());
    assert("--iterations"@.len() != "--duration"@.len());
    assert("--iterations"@.len() != "--target"@.len());
    assert("--seed"@.len() != "--timeout"@.len());
    assert("--seed"@[2] != "--host"@[2]);
    assert("--seed"@.len() != "--verbose"@.len());
    assert("--seed"@.len() != "-v"@.len());
    assert("--seed"@.len() != "--random"@.len());
    assert("--seed"@.len() != "--update-baseline"@.len());
    assert("--seed"@.len() != "--smoke"@.len());
    assert("--seed"@.len() != "--allyes"@.len());
    assert("--seed"@.len() != "--allno"@.len());
    assert("--seed"@.len() != "--set"@.len());
    assert("--seed"@.len() != "--duration"@.len());
    assert("--seed"@.len() != "--target"@.len());
    assert("--timeout"@.len() != "--host"@.len());
    assert("--timeout"@[2] != "--verbose"@[2]);
    assert("--timeout"@.len() != "-v"@.len());
    assert("--timeout"@.len() != "--random"@.len());
    assert("--timeout"@.len() != "--update-baseline"@.len());
    assert("--timeout"@.len() != "--smoke"@.len());
    assert("--timeout"@.len() != "--allyes"@.len());
    assert("--timeout"@.len() != "--allno"@.len());
    assert("--timeout"@.len() != "--set"@.len());
    assert("--timeout"@.len() != "--duration"@.len());
    assert("--timeout"@.len() != "--target"@.len());
    assert("--host"@.len() != "--verbose"@.len());
    assert("--host"@.len() != "-v"@.len());
    assert("--host"@.len() != "--random"@.len());
    assert("--host"@.len() != "--update-baseline"@.len());
    assert("--host"@.len() != "--smoke"@.len());
    assert("--host"@.len() != "--allyes"@.len());
    assert("--host"@.len() != "--allno"@.len());
    assert("--host"@.len() != "--set"@.len());
    assert("--host"@.len() != "--duration"@.len());
    assert("--host"@.len() != "--target"@.len());
    assert("--verbose"@.len() != "-v"@.len());
    assert("--verbose"@.len() != "--random"@.len());
    assert("--verbose"@.len() != "--update-baseline"@.len());
    assert("--verbose"@.len() != "--smoke"@.len());
    assert("--verbose"@.len() != "--allyes"@.len());
    assert("--verbose"@.len() != "--allno"@.len());
    assert("--verbose"@.len() != "--set"@.len());
    assert("--verbose"@.len() != "--duration"@.len());
    assert("--verbose"@.len() != "--target"@.len());
    assert("-v"@.len() != "--random"@.len());
    assert("-v"@.len() != "--update-baseline"@.len());
    assert("-v"@.len() != "--smoke"@.len());
    assert("-v"@.len() != "--allyes"@.len());
    assert("-v"@.len() != "--allno"@.len());
    assert("-v"@.len() != "--set"@.len());
    assert("-v"@.len() != "--duration"@.len());
    assert("-v"@.len() != "--target"@.len());
    assert("--random"@.len() != "--update-baseline"@.len());
    assert("--random"@.len() != "--smoke"@.len());
    assert("--random"@[2] != "--allyes"@[2]);
    assert("--random"@.len() != "--allno"@.len());
    assert("--random"@.len() != "--set"@.len());
    assert("--random"@.len() != "--duration"@.len());
    assert("--random"@[2] != "--target"@[2]);
    assert("--update-baseline"@.len() != "--smoke"@.len());
    assert("--update-baseline"@.len() != "--allyes"@.len());
    assert("--update-baseline"@.len() != "--allno"@.len());
    assert("--update-baseline"@.len() != "--set"@.len());
    assert("--update-baseline"@.len() != "--duration"@.len());
    assert("--update-baseline"@.len() != "--target"@.len());
    assert("--smoke"@.len() != "--allyes"@.len());
    assert("--smoke"@[2] != "--allno"@[2]);
    assert("--smoke"@.len() != "--set"@.len());
    assert("--smoke"@.len() != "--duration"@.len());
    assert("--smoke"@.len() != "--target"@.len());
    assert("--allyes"@.len() != "--allno"@.len());
    assert("--allyes"@.len() != "--set"@.len());
    assert("--allyes"@.len() != "--duration"@.len());
    assert("--allyes"@[2] != "--target"@[2]);
    assert("--allno"@.len() != "--set"@.len());
    assert("--allno"@.len() != "--duration"@.len());
    assert("--allno"@.len() != "--target"@.len());
    assert("--set"@.len() != "--duration"@.len());
    assert("--set"@.len() != "--target"@.len());
    assert("--duration"@.len() != "--target"@.len());
}

/// An option that takes a text sets what it is called after, to the text behind it, and nothing else; at
/// the end of the line it is refused.
pub proof fn options_take_their_text(o: Options, args: Seq<Seq<char>>, i: int)
    requires
        0 <= i < args.len(),
    ensures
        ({
            let r = options::taken(o, args, i);
            let v = args[i + 1];
            let more = i + 1 < args.len();
            &&& args[i] == "--preset"@ && more ==> r == Ok::<(Options, int), Seq<char>>((Options { preset: Some(v), ..o }, i + 2))
            &&& args[i] == "--preset"@ && !more ==> r is Err
            &&& args[i] == "--only"@ && more ==> r == Ok::<(Options, int), Seq<char>>((Options { only: Some(v), ..o }, i + 2))
            &&& args[i] == "--only"@ && !more ==> r is Err
            &&& args[i] == "--compare"@ && more ==> r == Ok::<(Options, int), Seq<char>>((Options { compare: Some(v), ..o }, i + 2))
            &&& args[i] == "--compare"@ && !more ==> r is Err
            &&& args[i] == "--save"@ && more ==> r == Ok::<(Options, int), Seq<char>>((Options { save: Some(v), ..o }, i + 2))
            &&& args[i] == "--save"@ && !more ==> r is Err
            &&& args[i] == "--corpus"@ && more ==> r == Ok::<(Options, int), Seq<char>>((Options { corpus: Some(v), ..o }, i + 2))
            &&& args[i] == "--corpus"@ && !more ==> r is Err
            &&& args[i] == "--file"@ && more ==> r == Ok::<(Options, int), Seq<char>>((Options { file: Some(v), ..o }, i + 2))
            &&& args[i] == "--file"@ && !more ==> r is Err
        }),
{
    reveal(options::flag_of);
    reveal(options::with_text);
    reveal(options::with_number);
    reveal(options::with_switch);
    options_differ();
}

/// An option that takes a number sets what it is called after, to the number behind it, and nothing else;
/// what is no number is refused.
pub proof fn options_take_their_number(o: Options, args: Seq<Seq<char>>, i: int)
    requires
        0 <= i < args.len(),
    ensures
        ({
            let r = options::taken(o, args, i);
            let n = options::number(args[i + 1]);
            let good = i + 1 < args.len() && n is Some;
            &&& args[i] == "--count"@ && good ==> r == Ok::<(Options, int), Seq<char>>((Options { count: n->0, ..o }, i + 2))
            &&& args[i] == "--count"@ && !good ==> r is Err
            &&& args[i] == "--iterations"@ && good ==> r == Ok::<(Options, int), Seq<char>>((Options { iterations: n->0, ..o }, i + 2))
            &&& args[i] == "--iterations"@ && !good ==> r is Err
            &&& args[i] == "--seed"@ && good ==> r == Ok::<(Options, int), Seq<char>>((Options { seed: Some(n->0), ..o }, i + 2))
            &&& args[i] == "--seed"@ && !good ==> r is Err
            &&& args[i] == "--timeout"@ && good ==> r == Ok::<(Options, int), Seq<char>>((Options { timeout: n->0, ..o }, i + 2))
            &&& args[i] == "--timeout"@ && !good ==> r is Err
        }),
{
    reveal(options::flag_of);
    reveal(options::with_text);
    reveal(options::with_number);
    reveal(options::with_switch);
    options_differ();
}

/// An option that stands alone sets what it is called after and nothing else.
pub proof fn options_that_stand_alone(o: Options, args: Seq<Seq<char>>, i: int)
    requires
        0 <= i < args.len(),
    ensures
        ({
            let r = options::taken(o, args, i);
            &&& args[i] == "--host"@ ==> r == Ok::<(Options, int), Seq<char>>((Options { in_kernel: false, ..o }, i + 1))
            &&& args[i] == "--verbose"@ ==> r == Ok::<(Options, int), Seq<char>>((Options { verbose: true, ..o }, i + 1))
            &&& args[i] == "-v"@ ==> r == Ok::<(Options, int), Seq<char>>((Options { verbose: true, ..o }, i + 1))
            &&& args[i] == "--random"@ ==> r == Ok::<(Options, int), Seq<char>>((Options { random: true, ..o }, i + 1))
            &&& args[i] == "--update-baseline"@ ==> r == Ok::<(Options, int), Seq<char>>((Options { update_baseline: true, ..o }, i + 1))
            &&& args[i] == "--smoke"@ ==> r == Ok::<(Options, int), Seq<char>>((Options { smoke: true, ..o }, i + 1))
            &&& args[i] == "--allyes"@ ==> r == Ok::<(Options, int), Seq<char>>((Options { generate: Some(Mode::AllYes), ..o }, i + 1))
            &&& args[i] == "--allno"@ ==> r == Ok::<(Options, int), Seq<char>>((Options { generate: Some(Mode::AllNo), ..o }, i + 1))
        }),
{
    reveal(options::flag_of);
    reveal(options::with_text);
    reveal(options::with_number);
    reveal(options::with_switch);
    options_differ();
}

proof fn found_at(s: Seq<char>, c: char, n: int, i: int)
    requires
        0 <= i <= n < s.len(),
        s[n] == c,
        forall|j: int| i <= j < n ==> #[trigger] s[j] != c,
    ensures
        text::next_of(s, c, i) == n,
    decreases n - i,
{
    if i < n {
        assert(s[i] != c);
        found_at(s, c, n, i + 1);
    }
}

/// `--set N=V` asks for `V` of the symbol `N`, behind everything asked so far: the name ends at the first
/// `=`, and whatever follows is the value.
pub proof fn settings_split_at_the_first_equals(
    o: Options,
    args: Seq<Seq<char>>,
    i: int,
    name: Seq<char>,
    value: Seq<char>,
)
    requires
        0 <= i,
        i + 1 < args.len(),
        args[i] == "--set"@,
        args[i + 1] == name + seq!['='] + value,
        forall|j: int| 0 <= j < name.len() ==> #[trigger] name[j] != '=',
    ensures
        options::taken(o, args, i) == Ok::<(Options, int), Seq<char>>(
            (Options { sets: o.sets.push((name, value)), ..o }, i + 2),
        ),
{
    reveal(options::flag_of);
    reveal(options::with_text);
    reveal(options::with_number);
    reveal(options::with_switch);
    options_differ();
    let v = args[i + 1];
    let n = name.len() as int;
    assert forall|j: int| 0 <= j < n implies #[trigger] v[j] != '=' by {
        assert(v[j] == name[j]);
    }
    assert(v[n] == '=');
    found_at(v, '=', n, 0);
    assert(v.subrange(0, n) =~= name);
    assert(v.subrange(n + 1, v.len() as int) =~= value);
}

/// `--target` with a name behind it names a target; with another option behind it, or nothing, it asks
/// for the tests to run in the kernel.
pub proof fn targets_may_be_named(o: Options, args: Seq<Seq<char>>, i: int)
    requires
        0 <= i < args.len(),
        args[i] == "--target"@,
    ensures
        ({
            let r = options::taken(o, args, i);
            let named = i + 1 < args.len() && !(args[i + 1].len() > 0 && args[i + 1][0] == '-');
            &&& named ==> r == Ok::<(Options, int), Seq<char>>((Options { target: Some(args[i + 1]), ..o }, i + 2))
            &&& !named ==> r == Ok::<(Options, int), Seq<char>>((Options { in_kernel: true, ..o }, i + 1))
        }),
{
    reveal(options::flag_of);
    reveal(options::with_text);
    reveal(options::with_number);
    reveal(options::with_switch);
    options_differ();
}

/// A length of time is a number and its unit: seconds, minutes of sixty of them, or hours of sixty of
/// those. Anything else behind the number is refused, and so is what does not fit.
pub proof fn lengths_are_counted_in_seconds(digits: Seq<char>, n: int, c: char)
    requires
        options::number(digits) == Some(n),
        0 <= n,
    ensures
        n <= u64::MAX ==> options::seconds(digits.push('s')) == Some(n),
        n * 60 <= u64::MAX ==> options::seconds(digits.push('m')) == Some(n * 60),
        n * 60 > u64::MAX ==> options::seconds(digits.push('m')) is None,
        n * 3600 <= u64::MAX ==> options::seconds(digits.push('h')) == Some(n * 60 * 60),
        n * 3600 > u64::MAX ==> options::seconds(digits.push('h')) is None,
        c != 's' && c != 'm' && c != 'h' ==> options::seconds(digits.push(c)) is None,
{
    assert(digits.push('s').drop_last() =~= digits);
    assert(digits.push('m').drop_last() =~= digits);
    assert(digits.push('h').drop_last() =~= digits);
    assert(digits.push(c).drop_last() =~= digits);
}

/// A word that is no option goes to the arguments, in order; one that looks like an option and is none is
/// refused.
pub proof fn other_words_are_arguments(o: Options, args: Seq<Seq<char>>, i: int)
    requires
        0 <= i < args.len(),
        args[i] != "--preset"@,
        args[i] != "--only"@,
        args[i] != "--compare"@,
        args[i] != "--save"@,
        args[i] != "--corpus"@,
        args[i] != "--file"@,
        args[i] != "--count"@,
        args[i] != "--iterations"@,
        args[i] != "--seed"@,
        args[i] != "--timeout"@,
        args[i] != "--host"@,
        args[i] != "--verbose"@,
        args[i] != "-v"@,
        args[i] != "--random"@,
        args[i] != "--update-baseline"@,
        args[i] != "--smoke"@,
        args[i] != "--allyes"@,
        args[i] != "--allno"@,
        args[i] != "--set"@,
        args[i] != "--duration"@,
        args[i] != "--target"@,
    ensures
        ({
            let r = options::taken(o, args, i);
            let dash = args[i].len() > 0 && args[i][0] == '-';
            &&& !dash ==> r == Ok::<(Options, int), Seq<char>>(
                (Options { positional: o.positional.push(args[i]), ..o }, i + 1),
            )
            &&& dash ==> r is Err
        }),
{
    reveal(options::flag_of);
}

/// What a command line asks to generate: a random configuration from the seed that it gives, or from a
/// fresh one where it gives none; never together with another way.
pub proof fn random_configurations_have_a_seed(args: Seq<Seq<char>>, fresh: u64, o: Options)
    requires
        options::taken_from(options::usual(), args, 0) == Ok::<Options, Seq<char>>(o),
    ensures
        ({
            let r = options::options_of(args, fresh);
            &&& !o.random ==> r == Ok::<Options, Seq<char>>(o)
            &&& o.random && o.generate is Some ==> r is Err
            &&& o.random && o.generate is None && o.seed is None ==> r is Ok && r->Ok_0.generate == Some(
                Mode::Random(fresh),
            )
            &&& o.random && o.generate is None && o.seed is Some && 0 <= o.seed->0 <= u64::MAX ==> r is Ok
                && r->Ok_0.generate is Some && r->Ok_0.generate->0 == Mode::Random(o.seed->0 as u64)
        }),
{
}

/// Nothing but what is asked is set: without options, tests run on the host, a run takes half a minute at
/// most, twenty configurations are drawn and a thousand inputs are tried.
pub proof fn an_empty_line_asks_nothing(fresh: u64)
    ensures
        ({
            let r = options::options_of(seq![], fresh);
            &&& r is Ok
            &&& !r->Ok_0.in_kernel && !r->Ok_0.verbose && !r->Ok_0.smoke && !r->Ok_0.update_baseline && !r->Ok_0.sdk
            &&& r->Ok_0.timeout == 30
            &&& r->Ok_0.count == 20
            &&& r->Ok_0.iterations == 1000
            &&& r->Ok_0.sets.len() == 0 && r->Ok_0.positional.len() == 0
            &&& r->Ok_0.preset is None && r->Ok_0.generate is None && r->Ok_0.seed is None && r->Ok_0.duration is None
        }),
{
}

/// What a command adds to what was asked: a test in the kernel has the guest exit and run its tests, a
/// test on the host and fuzzing use the mock architecture, and a stress run lasts as long as it was told.
pub proof fn commands_ask_for_what_they_need(c: Command, duration: Option<int>)
    ensures
        ({
            let s = commands::own_sets(c, duration);
            &&& c == Command::TestTarget ==> s == seq![("QEMU_EXIT"@, "y"@), ("INKERNEL_TESTS"@, "y"@)]
            &&& c == Command::TestHost || c == Command::Fuzz ==> s == seq![("MOCK_ARCH"@, "y"@)]
            &&& c == Command::Stress && duration is Some ==> s.contains(("QEMU_EXIT"@, "y"@)) && s.contains(
                ("STRESS_TEST"@, "y"@),
            ) && s.contains(("STRESS_SECONDS"@, text::decimal(duration->0)))
            &&& c != Command::TestTarget && c != Command::TestHost && c != Command::Fuzz && c != Command::Stress
                ==> s.len() == 0
        }),
{
    let s = commands::own_sets(c, duration);
    if c == Command::Stress && duration is Some {
        assert(s[0] == ("QEMU_EXIT"@, "y"@));
        assert(s[1] == ("STRESS_TEST"@, "y"@));
        assert(s[2] == ("STRESS_SECONDS"@, text::decimal(duration->0)));
    }
}

proof fn without_keeps_the_others(asked: Seq<resolve::Ask>, symbol: Seq<char>, n: nat, a: resolve::Ask)
    requires
        n <= asked.len(),
    ensures
        configure::without(asked, symbol, n).contains(a) <==> a.symbol != symbol && exists|j: int|
            0 <= j < n && #[trigger] asked[j] == a,
    decreases n,
{
    if n > 0 {
        without_keeps_the_others(asked, symbol, (n - 1) as nat, a);
        let before = configure::without(asked, symbol, (n - 1) as nat);
        let all = configure::without(asked, symbol, n);
        let x = asked[n - 1];
        if x.symbol != symbol {
            assert(all == before.push(x));
            assert(all[before.len() as int] == x);
            if before.contains(a) {
                let q = before.index_of(a);
                assert(all[q] == a);
            }
            if all.contains(a) {
                let q = choose|q: int| 0 <= q < all.len() && all[q] == a;
                if q < before.len() {
                    assert(before[q] == a);
                } else {
                    assert(asked[n - 1] == a);
                }
            }
        }
        if exists|j: int| 0 <= j < n && #[trigger] asked[j] == a {
            let j = choose|j: int| 0 <= j < n && #[trigger] asked[j] == a;
            if j < n - 1 {
                assert(0 <= j < n - 1 && asked[j] == a);
            }
        }
    }
}

/// A setting takes the place of everything that was asked of its symbol before, and leaves alone what was
/// asked of any other.
pub proof fn settings_replace_what_was_asked(
    asked: Seq<resolve::Ask>,
    sets: Seq<(Seq<char>, Seq<char>)>,
    n: nat,
    a: resolve::Ask,
)
    requires
        0 < n <= sets.len(),
    ensures
        ({
            let before = configure::with_sets(asked, sets, (n - 1) as nat);
            let after = configure::with_sets(asked, sets, n);
            &&& after.len() > 0
            &&& after.last().symbol == sets[n - 1].0
            &&& after.last().text == sets[n - 1].1
            &&& after.last().source == "--set"@
            &&& a.symbol != sets[n - 1].0 ==> (after.contains(a) <==> before.contains(a))
            &&& a.symbol == sets[n - 1].0 && a != after.last() ==> !after.contains(a)
        }),
{
    let before = configure::with_sets(asked, sets, (n - 1) as nat);
    let rest = configure::without(before, sets[n - 1].0, before.len());
    let after = configure::with_sets(asked, sets, n);
    without_keeps_the_others(before, sets[n - 1].0, before.len(), a);
    assert(after == rest.push(configure::set_ask(sets[n - 1])));
    if before.contains(a) {
        let j = before.index_of(a);
        assert(before[j] == a);
    }
    if rest.contains(a) {
        let q = rest.index_of(a);
        assert(after[q] == a);
    }
    if after.contains(a) {
        let q = choose|q: int| 0 <= q < after.len() && after[q] == a;
        if q < rest.len() {
            assert(rest[q] == a);
        }
    }
}

} // verus!
