//! The command line.

use vstd::prelude::*;
use vstd::string::*;

use crate::kcfg::random::Mode;
use crate::modules;
use crate::text;

verus! {

/// What the options of a command come to.
#[derive(Debug)]
pub struct Opts {
    pub in_kernel: bool,
    pub only: Option<String>,
    pub preset: Option<String>,
    pub sets: Vec<(String, String)>,
    pub verbose: bool,
    pub timeout: u64,
    /// Arguments that are not options. Only `symbolize` takes one.
    pub positional: Vec<String>,
    /// `--random`, `--allyes` or `--allno`: how to extend the configuration.
    pub generate: Option<Mode>,
    /// `--count` and `--seed`, for `randconfig-build`, which derives one seed per configuration
    /// from `--seed`.
    pub count: u64,
    pub seed: Option<u64>,
    /// `--compare`, `--save` and `--update-baseline`, for `size`.
    pub compare: Option<String>,
    pub save: Option<String>,
    pub update_baseline: bool,
    /// `stress`: seconds of guest time to run for.
    pub duration: Option<u64>,
    /// `sdk`: write the module SDK after building.
    pub sdk: bool,
    /// `fuzz`: which target, how many inputs, where the corpus is, and whether to replay it rather
    /// than generate anything.
    pub target: Option<String>,
    pub iterations: u64,
    pub corpus: Option<String>,
    pub file: Option<String>,
    pub smoke: bool,
    /// `--random`, as long as the arguments are being read.
    pub random: bool,
}

/// Options over mathematical values.
pub ghost struct Options {
    pub in_kernel: bool,
    pub only: Option<Seq<char>>,
    pub preset: Option<Seq<char>>,
    pub sets: Seq<(Seq<char>, Seq<char>)>,
    pub verbose: bool,
    pub timeout: int,
    pub positional: Seq<Seq<char>>,
    pub generate: Option<Mode>,
    pub count: int,
    pub seed: Option<int>,
    pub compare: Option<Seq<char>>,
    pub save: Option<Seq<char>>,
    pub update_baseline: bool,
    pub duration: Option<int>,
    pub sdk: bool,
    pub target: Option<Seq<char>>,
    pub iterations: int,
    pub corpus: Option<Seq<char>>,
    pub file: Option<Seq<char>>,
    pub smoke: bool,
    pub random: bool,
}

/// An optional number without bounds.
pub open spec fn opt_number(n: Option<u64>) -> Option<int> {
    match n {
        Some(x) => Some(x as int),
        None => None,
    }
}

impl View for Opts {
    type V = Options;

    open spec fn view(&self) -> Options {
        Options {
            in_kernel: self.in_kernel,
            only: text::opt(self.only),
            preset: text::opt(self.preset),
            sets: modules::settings_of(self.sets@),
            verbose: self.verbose,
            timeout: self.timeout as int,
            positional: text::views(self.positional@),
            generate: self.generate,
            count: self.count as int,
            seed: opt_number(self.seed),
            compare: text::opt(self.compare),
            save: text::opt(self.save),
            update_baseline: self.update_baseline,
            duration: opt_number(self.duration),
            sdk: self.sdk,
            target: text::opt(self.target),
            iterations: self.iterations as int,
            corpus: text::opt(self.corpus),
            file: text::opt(self.file),
            smoke: self.smoke,
            random: self.random,
        }
    }
}

/// The options where none is given.
pub open spec fn usual() -> Options {
    Options {
        in_kernel: false,
        only: None,
        preset: None,
        sets: seq![],
        verbose: false,
        timeout: 30,
        positional: seq![],
        generate: None,
        count: 20,
        seed: None,
        compare: None,
        save: None,
        update_baseline: false,
        duration: None,
        sdk: false,
        target: None,
        iterations: 1000,
        corpus: None,
        file: None,
        smoke: false,
        random: false,
    }
}

/// Whether an argument begins with a dash.
pub open spec fn dashed(s: Seq<char>) -> bool {
    s.len() > 0 && s[0] == '-'
}

/// The number that an argument writes in decimal, if it fits in 64 bits.
pub open spec fn number(s: Seq<char>) -> Option<int> {
    if dashed(s) {
        None
    } else {
        text::number_within(s, 10, 0, u64::MAX as int)
    }
}

/// How many seconds a unit of time has.
pub open spec fn unit_seconds(c: char) -> Option<int> {
    if c == 's' {
        Some(1)
    } else if c == 'm' {
        Some(60)
    } else if c == 'h' {
        Some(3600)
    } else {
        None
    }
}

/// The seconds in a length such as `90s`, `10m` or `24h`.
pub open spec fn seconds(s: Seq<char>) -> Option<int> {
    if s.len() == 0 {
        None
    } else {
        match (number(s.drop_last()), unit_seconds(s.last())) {
            (Some(n), Some(u)) => if n * u <= u64::MAX {
                Some(n * u)
            } else {
                None
            },
            _ => None,
        }
    }
}

/// Why a length of time is refused.
pub open spec fn no_duration(s: Seq<char>) -> Seq<char> {
    "--duration expects a length such as 90s, 10m or 24h, got `"@ + s + "`"@
}

/// An option that takes a text.
#[derive(Clone, Copy, Debug, PartialEq, Eq, Structural)]
pub enum TextFlag {
    Preset,
    Only,
    Compare,
    Save,
    Corpus,
    File,
}

/// An option that takes a number.
#[derive(Clone, Copy, Debug, PartialEq, Eq, Structural)]
pub enum NumberFlag {
    Count,
    Iterations,
    Seed,
    Timeout,
}

/// An option that stands alone.
#[derive(Clone, Copy, Debug, PartialEq, Eq, Structural)]
pub enum Switch {
    Host,
    Verbose,
    Random,
    UpdateBaseline,
    Smoke,
    AllYes,
    AllNo,
}

/// What an argument is.
#[derive(Clone, Copy, Debug, PartialEq, Eq, Structural)]
pub enum Flag {
    Text(TextFlag),
    Number(NumberFlag),
    Alone(Switch),
    Setting,
    Duration,
    Target,
    /// Not an option.
    Plain,
    Unknown,
}

/// What an argument is, by its spelling.
#[verifier::opaque]
pub open spec fn flag_of(a: Seq<char>) -> Flag {
    if a == "--preset"@ {
        Flag::Text(TextFlag::Preset)
    } else if a == "--only"@ {
        Flag::Text(TextFlag::Only)
    } else if a == "--compare"@ {
        Flag::Text(TextFlag::Compare)
    } else if a == "--save"@ {
        Flag::Text(TextFlag::Save)
    } else if a == "--corpus"@ {
        Flag::Text(TextFlag::Corpus)
    } else if a == "--file"@ {
        Flag::Text(TextFlag::File)
    } else if a == "--count"@ {
        Flag::Number(NumberFlag::Count)
    } else if a == "--iterations"@ {
        Flag::Number(NumberFlag::Iterations)
    } else if a == "--seed"@ {
        Flag::Number(NumberFlag::Seed)
    } else if a == "--timeout"@ {
        Flag::Number(NumberFlag::Timeout)
    } else if a == "--host"@ {
        Flag::Alone(Switch::Host)
    } else if a == "--verbose"@ {
        Flag::Alone(Switch::Verbose)
    } else if a == "-v"@ {
        Flag::Alone(Switch::Verbose)
    } else if a == "--random"@ {
        Flag::Alone(Switch::Random)
    } else if a == "--update-baseline"@ {
        Flag::Alone(Switch::UpdateBaseline)
    } else if a == "--smoke"@ {
        Flag::Alone(Switch::Smoke)
    } else if a == "--allyes"@ {
        Flag::Alone(Switch::AllYes)
    } else if a == "--allno"@ {
        Flag::Alone(Switch::AllNo)
    } else if a == "--set"@ {
        Flag::Setting
    } else if a == "--duration"@ {
        Flag::Duration
    } else if a == "--target"@ {
        Flag::Target
    } else if dashed(a) {
        Flag::Unknown
    } else {
        Flag::Plain
    }
}

/// What is said where the argument behind an option is missing.
pub open spec fn text_missing(f: TextFlag) -> Seq<char> {
    match f {
        TextFlag::Preset => "--preset needs a name"@,
        TextFlag::Only => "--only needs a name"@,
        TextFlag::Compare => "--compare needs a ref or file"@,
        TextFlag::Save => "--save needs a file"@,
        TextFlag::Corpus => "--corpus needs a directory"@,
        TextFlag::File => "--file needs a path"@,
    }
}

pub open spec fn number_missing(f: NumberFlag) -> Seq<char> {
    match f {
        NumberFlag::Count => "--count needs a number"@,
        NumberFlag::Iterations => "--iterations needs a number"@,
        NumberFlag::Seed => "--seed needs a number"@,
        NumberFlag::Timeout => "--timeout needs seconds"@,
    }
}

/// What is said where the argument behind an option is no number.
pub open spec fn no_number(f: NumberFlag, v: Seq<char>) -> Seq<char> {
    match f {
        NumberFlag::Count => "--count expects a number, got `"@ + v + "`"@,
        NumberFlag::Iterations => "--iterations expects a number, got `"@ + v + "`"@,
        NumberFlag::Seed => "--seed expects a number, got `"@ + v + "`"@,
        NumberFlag::Timeout => "--timeout expects a number"@,
    }
}

#[verifier::opaque]
pub open spec fn with_text(o: Options, f: TextFlag, v: Seq<char>) -> Options {
    match f {
        TextFlag::Preset => Options { preset: Some(v), ..o },
        TextFlag::Only => Options { only: Some(v), ..o },
        TextFlag::Compare => Options { compare: Some(v), ..o },
        TextFlag::Save => Options { save: Some(v), ..o },
        TextFlag::Corpus => Options { corpus: Some(v), ..o },
        TextFlag::File => Options { file: Some(v), ..o },
    }
}

#[verifier::opaque]
pub open spec fn with_number(o: Options, f: NumberFlag, n: int) -> Options {
    match f {
        NumberFlag::Count => Options { count: n, ..o },
        NumberFlag::Iterations => Options { iterations: n, ..o },
        NumberFlag::Seed => Options { seed: Some(n), ..o },
        NumberFlag::Timeout => Options { timeout: n, ..o },
    }
}

#[verifier::opaque]
pub open spec fn with_switch(o: Options, f: Switch) -> Options {
    match f {
        Switch::Host => Options { in_kernel: false, ..o },
        Switch::Verbose => Options { verbose: true, ..o },
        Switch::Random => Options { random: true, ..o },
        Switch::UpdateBaseline => Options { update_baseline: true, ..o },
        Switch::Smoke => Options { smoke: true, ..o },
        Switch::AllYes => Options { generate: Some(Mode::AllYes), ..o },
        Switch::AllNo => Options { generate: Some(Mode::AllNo), ..o },
    }
}

/// What option `args[i]` makes of the options so far, and where the next argument stands.
pub open spec fn taken(o: Options, args: Seq<Seq<char>>, i: int) -> Result<(Options, int), Seq<char>> {
    let a = args[i];
    let value = if i + 1 < args.len() {
        Some(args[i + 1])
    } else {
        None
    };
    match flag_of(a) {
        Flag::Text(f) => match value {
            Some(v) => Ok((with_text(o, f, v), i + 2)),
            None => Err(text_missing(f)),
        },
        Flag::Number(f) => match value {
            Some(v) => match number(v) {
                Some(n) => Ok((with_number(o, f, n), i + 2)),
                None => Err(no_number(f, v)),
            },
            None => Err(number_missing(f)),
        },
        Flag::Alone(f) => Ok((with_switch(o, f), i + 1)),
        Flag::Duration => match value {
            Some(v) => match seconds(v) {
                Some(n) => Ok((Options { duration: Some(n), ..o }, i + 2)),
                None => Err(no_duration(v)),
            },
            None => Err("--duration needs a length, e.g. 10m"@),
        },
        Flag::Setting => match value {
            Some(v) => {
                let at = text::next_of(v, '=', 0);
                if at >= v.len() {
                    Err("--set expects SYM=VALUE"@)
                } else {
                    let setting = (v.subrange(0, at), v.subrange(at + 1, v.len() as int));
                    Ok((Options { sets: o.sets.push(setting), ..o }, i + 2))
                }
            },
            None => Err("--set needs SYM=VALUE"@),
        },
        Flag::Target => match value {
            Some(v) => if dashed(v) {
                Ok((Options { in_kernel: true, ..o }, i + 1))
            } else {
                Ok((Options { target: Some(v), ..o }, i + 2))
            },
            None => Ok((Options { in_kernel: true, ..o }, i + 1)),
        },
        Flag::Plain => Ok((Options { positional: o.positional.push(a), ..o }, i + 1)),
        Flag::Unknown => Err("unknown option `"@ + a + "`"@),
    }
}

/// What the arguments from `i` on make of the options so far.
///
/// `--target` is two options told apart by what follows: alone it asks `test` for the in-kernel
/// suite; with a name it names a `fuzz` target.
pub open spec fn taken_from(o: Options, args: Seq<Seq<char>>, i: int) -> Result<Options, Seq<char>>
    decreases args.len() - i,
{
    if i < 0 || i >= args.len() {
        Ok(o)
    } else {
        match taken(o, args, i) {
            Err(e) => Err(e),
            Ok((next, at)) => if at > i {
                taken_from(next, args, at)
            } else {
                Ok(next)
            },
        }
    }
}

/// The options that arguments come to. `fresh` is the seed to use where `--random` comes without
/// one.
pub open spec fn options_of(args: Seq<Seq<char>>, fresh: u64) -> Result<Options, Seq<char>> {
    match taken_from(usual(), args, 0) {
        Err(e) => Err(e),
        Ok(o) => if !o.random {
            Ok(o)
        } else if o.generate is Some {
            Err("--random, --allyes and --allno are alternatives; give one"@)
        } else {
            let seed = match o.seed {
                Some(s) => s as u64,
                None => fresh,
            };
            Ok(Options { generate: Some(Mode::Random(seed)), random: false, ..o })
        },
    }
}

fn begins_with_dash(s: &str) -> (r: bool)
    ensures
        r == dashed(s@),
{
    let b = text::chars(s);
    b.len() > 0 && b[0] == '-'
}

fn read_number(s: &str) -> (r: Option<u64>)
    ensures
        opt_number(r) == number(s@),
{
    let b = text::chars(s);
    text::parse_u64(b.as_slice(), 10)
}

/// The seconds in a length such as `90s`, `10m` or `24h`.
pub fn parse_duration(s: &str) -> (r: Result<u64, String>)
    ensures
        match r {
            Ok(n) => seconds(s@) == Some(n as int),
            Err(e) => seconds(s@) is None && e@ == no_duration(s@),
        },
{
    let b = text::chars(s);
    if b.len() == 0 {
        return Err(text::three("--duration expects a length such as 90s, 10m or 24h, got `", s, "`"));
    }
    let unit: u64 = match b[b.len() - 1] {
        's' => 1,
        'm' => 60,
        'h' => 3600,
        _ => 0,
    };
    let front = text::part(b.as_slice(), 0, b.len() - 1);
    assert(front@ =~= s@.drop_last());
    let n = if front.len() > 0 && front[0] == '-' {
        None
    } else {
        text::parse_u64(front.as_slice(), 10)
    };
    if let Some(n) = n {
        if unit > 0 {
            let total: u128 = n as u128 * unit as u128;
            if total <= u64::MAX as u128 {
                return Ok(total as u64);
            }
        }
    }
    Err(text::three("--duration expects a length such as 90s, 10m or 24h, got `", s, "`"))
}

fn read_flag(a: &str) -> (r: Flag)
    ensures
        r == flag_of(a@),
{
    reveal(flag_of);
    if text::same(a, "--preset") {
        Flag::Text(TextFlag::Preset)
    } else if text::same(a, "--only") {
        Flag::Text(TextFlag::Only)
    } else if text::same(a, "--compare") {
        Flag::Text(TextFlag::Compare)
    } else if text::same(a, "--save") {
        Flag::Text(TextFlag::Save)
    } else if text::same(a, "--corpus") {
        Flag::Text(TextFlag::Corpus)
    } else if text::same(a, "--file") {
        Flag::Text(TextFlag::File)
    } else if text::same(a, "--count") {
        Flag::Number(NumberFlag::Count)
    } else if text::same(a, "--iterations") {
        Flag::Number(NumberFlag::Iterations)
    } else if text::same(a, "--seed") {
        Flag::Number(NumberFlag::Seed)
    } else if text::same(a, "--timeout") {
        Flag::Number(NumberFlag::Timeout)
    } else if text::same(a, "--host") {
        Flag::Alone(Switch::Host)
    } else if text::same(a, "--verbose") {
        Flag::Alone(Switch::Verbose)
    } else if text::same(a, "-v") {
        Flag::Alone(Switch::Verbose)
    } else if text::same(a, "--random") {
        Flag::Alone(Switch::Random)
    } else if text::same(a, "--update-baseline") {
        Flag::Alone(Switch::UpdateBaseline)
    } else if text::same(a, "--smoke") {
        Flag::Alone(Switch::Smoke)
    } else if text::same(a, "--allyes") {
        Flag::Alone(Switch::AllYes)
    } else if text::same(a, "--allno") {
        Flag::Alone(Switch::AllNo)
    } else if text::same(a, "--set") {
        Flag::Setting
    } else if text::same(a, "--duration") {
        Flag::Duration
    } else if text::same(a, "--target") {
        Flag::Target
    } else if begins_with_dash(a) {
        Flag::Unknown
    } else {
        Flag::Plain
    }
}

fn say_text_missing(f: TextFlag) -> (r: String)
    ensures
        r@ == text_missing(f),
{
    match f {
        TextFlag::Preset => "--preset needs a name".to_owned(),
        TextFlag::Only => "--only needs a name".to_owned(),
        TextFlag::Compare => "--compare needs a ref or file".to_owned(),
        TextFlag::Save => "--save needs a file".to_owned(),
        TextFlag::Corpus => "--corpus needs a directory".to_owned(),
        TextFlag::File => "--file needs a path".to_owned(),
    }
}

fn say_number_missing(f: NumberFlag) -> (r: String)
    ensures
        r@ == number_missing(f),
{
    match f {
        NumberFlag::Count => "--count needs a number".to_owned(),
        NumberFlag::Iterations => "--iterations needs a number".to_owned(),
        NumberFlag::Seed => "--seed needs a number".to_owned(),
        NumberFlag::Timeout => "--timeout needs seconds".to_owned(),
    }
}

fn say_no_number(f: NumberFlag, v: &str) -> (r: String)
    ensures
        r@ == no_number(f, v@),
{
    match f {
        NumberFlag::Count => text::three("--count expects a number, got `", v, "`"),
        NumberFlag::Iterations => text::three("--iterations expects a number, got `", v, "`"),
        NumberFlag::Seed => text::three("--seed expects a number, got `", v, "`"),
        NumberFlag::Timeout => "--timeout expects a number".to_owned(),
    }
}

fn set_text(o: &mut Opts, f: TextFlag, v: &str)
    ensures
        final(o)@ == with_text(old(o)@, f, v@),
{
    reveal(with_text);
    match f {
        TextFlag::Preset => o.preset = Some(v.to_owned()),
        TextFlag::Only => o.only = Some(v.to_owned()),
        TextFlag::Compare => o.compare = Some(v.to_owned()),
        TextFlag::Save => o.save = Some(v.to_owned()),
        TextFlag::Corpus => o.corpus = Some(v.to_owned()),
        TextFlag::File => o.file = Some(v.to_owned()),
    }
}

fn set_number(o: &mut Opts, f: NumberFlag, n: u64)
    ensures
        final(o)@ == with_number(old(o)@, f, n as int),
{
    reveal(with_number);
    match f {
        NumberFlag::Count => o.count = n,
        NumberFlag::Iterations => o.iterations = n,
        NumberFlag::Seed => o.seed = Some(n),
        NumberFlag::Timeout => o.timeout = n,
    }
}

fn set_switch(o: &mut Opts, f: Switch)
    ensures
        final(o)@ == with_switch(old(o)@, f),
{
    reveal(with_switch);
    match f {
        Switch::Host => o.in_kernel = false,
        Switch::Verbose => o.verbose = true,
        Switch::Random => o.random = true,
        Switch::UpdateBaseline => o.update_baseline = true,
        Switch::Smoke => o.smoke = true,
        Switch::AllYes => o.generate = Some(Mode::AllYes),
        Switch::AllNo => o.generate = Some(Mode::AllNo),
    }
}

fn add_setting(o: &mut Opts, v: &str) -> (r: bool)
    ensures
        ({
            let at = text::next_of(v@, '=', 0);
            if at >= v@.len() {
                !r && final(o)@ == old(o)@
            } else {
                let setting = (v@.subrange(0, at), v@.subrange(at + 1, v@.len() as int));
                r && final(o)@ == (Options { sets: old(o)@.sets.push(setting), ..old(o)@ })
            }
        }),
{
    let b = text::chars(v);
    let at: usize = text::find_char(b.as_slice(), '=', 0);
    if at >= b.len() {
        return false;
    }
    let symbol = text::string(text::part(b.as_slice(), 0, at).as_slice());
    let setting = text::string(text::part(b.as_slice(), at + 1, b.len()).as_slice());
    let ghost before = modules::settings_of(o.sets@);
    let ghost added = (symbol@, setting@);
    o.sets.push((symbol, setting));
    assert(modules::settings_of(o.sets@) =~= before.push(added));
    true
}

#[verifier::spinoff_prover]
#[verifier::rlimit(60)]
fn take(o: Opts, args: &[String], i: usize) -> (r: Result<(Opts, usize), String>)
    requires
        i < args@.len(),
    ensures
        match r {
            Ok((next, at)) => taken(o@, text::views(args@), i as int) == Ok::<(Options, int), Seq<char>>(
                (next@, at as int),
            ) && i < at,
            Err(e) => taken(o@, text::views(args@), i as int) == Err::<(Options, int), Seq<char>>(e@),
        },
{
    let ghost all = text::views(args@);
    let ghost len = args.len();
    let a = args[i].as_str();
    assert(all[i as int] == a@);
    let value: Option<&str> = if i + 1 < args.len() {
        Some(args[i + 1].as_str())
    } else {
        None
    };
    assert(value is Some ==> all[i + 1] == value->0@);
    let mut o = o;
    match read_flag(a) {
        Flag::Text(f) => match value {
            Some(v) => {
                set_text(&mut o, f, v);
                Ok((o, i + 2))
            },
            None => Err(say_text_missing(f)),
        },
        Flag::Number(f) => match value {
            Some(v) => match read_number(v) {
                Some(n) => {
                    set_number(&mut o, f, n);
                    Ok((o, i + 2))
                },
                None => Err(say_no_number(f, v)),
            },
            None => Err(say_number_missing(f)),
        },
        Flag::Alone(f) => {
            set_switch(&mut o, f);
            Ok((o, i + 1))
        },
        Flag::Duration => match value {
            Some(v) => match parse_duration(v) {
                Ok(n) => {
                    o.duration = Some(n);
                    Ok((o, i + 2))
                },
                Err(e) => Err(e),
            },
            None => Err("--duration needs a length, e.g. 10m".to_owned()),
        },
        Flag::Setting => match value {
            Some(v) => {
                if add_setting(&mut o, v) {
                    Ok((o, i + 2))
                } else {
                    Err("--set expects SYM=VALUE".to_owned())
                }
            },
            None => Err("--set needs SYM=VALUE".to_owned()),
        },
        Flag::Target => {
            if let Some(v) = value {
                if !begins_with_dash(v) {
                    o.target = Some(v.to_owned());
                    return Ok((o, i + 2));
                }
            }
            o.in_kernel = true;
            Ok((o, i + 1))
        },
        Flag::Plain => {
            text::push_text(&mut o.positional, a);
            Ok((o, i + 1))
        },
        Flag::Unknown => Err(text::three("unknown option `", a, "`")),
    }
}

/// The options that arguments come to. `fresh` is the seed to use where `--random` comes without
/// one.
pub fn parse_opts(args: &[String], fresh: u64) -> (r: Result<Opts, String>)
    ensures
        match r {
            Ok(o) => options_of(text::views(args@), fresh) == Ok::<Options, Seq<char>>(o@),
            Err(e) => options_of(text::views(args@), fresh) == Err::<Options, Seq<char>>(e@),
        },
{
    let ghost all = text::views(args@);
    let mut o = Opts {
        in_kernel: false,
        only: None,
        preset: None,
        sets: Vec::new(),
        verbose: false,
        timeout: 30,
        positional: Vec::new(),
        generate: None,
        count: 20,
        seed: None,
        compare: None,
        save: None,
        update_baseline: false,
        duration: None,
        sdk: false,
        target: None,
        iterations: 1000,
        corpus: None,
        file: None,
        smoke: false,
        random: false,
    };
    assert(o@.sets =~= seq![]);
    assert(o@.positional =~= seq![]);
    let mut i: usize = 0;
    while i < args.len()
        invariant
            all == text::views(args@),
            taken_from(usual(), all, 0) == taken_from(o@, all, i as int),
        decreases args@.len() - i,
    {
        match take(o, args, i) {
            Err(e) => {
                return Err(e);
            },
            Ok((next, at)) => {
                o = next;
                i = at;
            },
        }
    }
    if o.random {
        if o.generate.is_some() {
            return Err("--random, --allyes and --allno are alternatives; give one".to_owned());
        }
        let seed: u64 = match o.seed {
            Some(s) => s,
            None => fresh,
        };
        o.generate = Some(Mode::Random(seed));
        o.random = false;
    }
    Ok(o)
}

} // verus!
