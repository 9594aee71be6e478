//! The test disk after a run: what the kernel wrote to it, read back.
//!
//! After a clean exit the volume must pass the consistency walk with nothing lost and both tables
//! the same, the names that the writing checks remove must be gone, and every file that a check
//! says it read back must hold what it wrote: the kernel's word is not taken for it. After a power
//! cut lost clusters and tables that differ are allowed, since the kernel's write ordering promises
//! no more, but everything else in the walk must hold, and every byte below a file's size must be
//! one that the workload wrote.

use vstd::prelude::*;
use vstd::slice::slice_subrange;
use vstd::string::*;

use crate::bytes;
use crate::fat::read;
use crate::fat16;
use crate::fat16::Volume;
use crate::graph;
use crate::text;

verus! {

/// The run's copy of the image, beside the pristine one.
pub const RUN_FILE: &'static str = "testdisk.run.img";

/// The directory that the crash test's workload writes, and the seed of every byte it writes there.
pub const CRASH_DIR: &'static str = "CRASH";

pub const CRASH_SEED: u8 = 0x41;

/// Where the run's copy of the test disk goes, given the kernel image that QEMU boots.
pub open spec fn run_path(image: Seq<char>) -> Seq<char> {
    graph::neighbour(image, RUN_FILE@)
}

/// Where the run's copy of the test disk goes, given the kernel image that QEMU boots.
pub fn run_copy(image: &str) -> (r: String)
    ensures
        r@ == run_path(image@),
{
    graph::beside(image, RUN_FILE)
}

/// A file that a check writes: where, how long, and the seed of its bytes.
pub struct Output {
    pub path: String,
    pub len: usize,
    pub seed: u8,
}

/// Whether `f` gives the bytes that `g` does: what a workload writes at a place, from a seed.
pub open spec fn writes<F: Fn(u8, usize) -> u8>(f: F, g: spec_fn(u8, int) -> u8) -> bool {
    forall|seed: u8, i: usize, b: u8| #[trigger] f.ensures((seed, i), b) ==> b == g(seed, i as int)
}

/// The first place from `i` on that does not hold what was written.
pub open spec fn stray_from(data: Seq<u8>, seed: u8, g: spec_fn(u8, int) -> u8, i: int) -> Option<int>
    decreases data.len() - i,
{
    if i < 0 || i >= data.len() {
        None
    } else if data[i] != g(seed, i) {
        Some(i)
    } else {
        stray_from(data, seed, g, i + 1)
    }
}

fn find_stray<F: Fn(u8, usize) -> u8>(data: &[u8], seed: u8, f: &F) -> (r: Option<usize>)
    requires
        forall|s: u8, i: usize| #[trigger] f.requires((s, i)),
    ensures
        forall|g: spec_fn(u8, int) -> u8| #[trigger]
            writes(*f, g) ==> match r {
                Some(at) => stray_from(data@, seed, g, 0) == Some(at as int),
                None => stray_from(data@, seed, g, 0) == None::<int>,
            },
{
    let mut i: usize = 0;
    while i < data.len()
        invariant
            i <= data@.len(),
            forall|s: u8, i: usize| #[trigger] f.requires((s, i)),
            forall|g: spec_fn(u8, int) -> u8| #[trigger]
                writes(*f, g) ==> stray_from(data@, seed, g, 0) == stray_from(data@, seed, g, i as int),
        decreases data@.len() - i,
    {
        let b: u8 = f(seed, i);
        assert(f.ensures((seed, i), b));
        if data[i] != b {
            return Some(i);
        }
        i += 1;
    }
    None
}

/// The bytes of a disk image from sector `start` on, where its volume begins.
pub fn volume_bytes(image: &[u8], start: usize) -> (r: Result<&[u8], String>)
    ensures
        match r {
            Ok(b) => start * 512 <= image@.len() && b@ == image@.subrange(start * 512, image@.len() as int),
            Err(e) => start * 512 > image@.len() && e@ == "the disk image is shorter than its volume's start"@,
        },
{
    if start as u128 * 512 > image.len() as u128 {
        return Err("the disk image is shorter than its volume's start".to_owned());
    }
    Ok(slice_subrange(image, start * 512, image.len()))
}

// ---- after a clean exit ----

/// What the console says of a file that a check has read back.
pub open spec fn claim(path: Seq<char>) -> Seq<char> {
    "/"@ + path + " read back"@
}

/// Whether a file is on the volume as it was written, for one that the console claims: the path
/// to report, nothing where there is no claim, or what is wrong.
pub open spec fn read_back(m: read::Media, console: Seq<char>, o: Output, g: spec_fn(u8, int) -> u8) -> Result<
    Option<Seq<char>>,
    Seq<char>,
> {
    if bytes::find(console, claim(o.path@), 0) is None {
        Ok(None)
    } else {
        match read::read(m, o.path@) {
            Err(e) => Err(e),
            Ok(None) => Err("/"@ + o.path@ + " is not on the disk image, though the kernel read it back"@),
            Ok(Some(data)) => if data.len() == o.len && stray_from(data, o.seed, g, 0) is None {
                Ok(Some("/"@ + o.path@))
            } else {
                Err(
                    "/"@ + o.path@ + " on the disk image is not what the kernel wrote ("@ + text::decimal(
                        data.len() as int,
                    ) + " bytes, "@ + text::decimal(o.len as int) + " expected)"@,
                )
            },
        }
    }
}

/// The paths among the first `n` that were read back, or what is wrong.
pub open spec fn read_backs(
    m: read::Media,
    console: Seq<char>,
    outs: Seq<Output>,
    g: spec_fn(u8, int) -> u8,
    n: nat,
) -> Result<Seq<Seq<char>>, Seq<char>>
    decreases n,
{
    if n == 0 {
        Ok(seq![])
    } else {
        match read_backs(m, console, outs, g, (n - 1) as nat) {
            Err(e) => Err(e),
            Ok(before) => match read_back(m, console, outs[n - 1], g) {
                Err(e) => Err(e),
                Ok(None) => Ok(before),
                Ok(Some(p)) => Ok(before.push(p)),
            },
        }
    }
}

/// What is wrong with the first `n` names that should be gone.
pub open spec fn still_there(m: read::Media, removed: Seq<Seq<char>>, n: nat) -> Option<Seq<char>>
    decreases n,
{
    if n == 0 {
        None
    } else if still_there(m, removed, (n - 1) as nat) is Some {
        still_there(m, removed, (n - 1) as nat)
    } else {
        match read::find(m, removed[n - 1]) {
            Err(e) => Some(e),
            Ok(None) => None,
            Ok(Some(_)) => Some(
                "/"@ + removed[n - 1] + " is still on the disk image, though the kernel removed it"@,
            ),
        }
    }
}

/// The line for the report.
pub open spec fn clean_line(files: int, dirs: int, paths: Seq<Seq<char>>) -> Seq<char> {
    "disk image: FAT16 consistent, "@ + text::decimal(files) + " files, "@ + text::decimal(dirs)
        + " directories, no lost cluster, the tables the same"@ + if paths.len() == 0 {
        seq![]
    } else {
        "; kbuild read back "@ + text::joined(paths, " and "@)
    }
}

/// What a volume comes to after a clean exit.
pub open spec fn clean_of(
    b: Seq<u8>,
    console: Seq<char>,
    outs: Seq<Output>,
    removed: Seq<Seq<char>>,
    g: spec_fn(u8, int) -> u8,
) -> Result<Seq<char>, Seq<char>> {
    let m = fat16::media_of(b);
    match fat16::open_wrong(b) {
        Some(e) => Err(e),
        None => match read::surveyed(m) {
            Err(e) => Err("the disk image after the run is inconsistent: "@ + e),
            Ok(w) => {
                let rest = read::rest(m, w.seen, m.clusters + 2);
                if rest.lost != 0 || rest.differ != 0 {
                    Err(
                        "the disk image after a clean exit lost "@ + text::decimal(rest.lost as int)
                            + " clusters, and its tables differ in "@ + text::decimal(rest.differ as int) + " entries"@,
                    )
                } else {
                    match read_backs(m, console, outs, g, outs.len()) {
                        Err(e) => Err(e),
                        Ok(paths) => match still_there(m, removed, removed.len()) {
                            Some(e) => Err(e),
                            None => Ok(clean_line(w.files as int, w.dirs as int, paths)),
                        },
                    }
                }
            },
        },
    }
}

fn check_output<F: Fn(u8, usize) -> u8>(v: &Volume<'_>, console: &Vec<char>, o: &Output, f: &F) -> (r: Result<
    Option<String>,
    String,
>)
    requires
        read::fits(v@),
        forall|s: u8, i: usize| #[trigger] f.requires((s, i)),
    ensures
        forall|g: spec_fn(u8, int) -> u8| #[trigger]
            writes(*f, g) ==> match r {
                Ok(Some(p)) => read_back(v@, console@, *o, g) == Ok::<Option<Seq<char>>, Seq<char>>(Some(p@)),
                Ok(None) => read_back(v@, console@, *o, g) == Ok::<Option<Seq<char>>, Seq<char>>(None),
                Err(e) => read_back(v@, console@, *o, g) == Err::<Option<Seq<char>>, Seq<char>>(e@),
            },
{
    let needle = text::chars(text::three("/", o.path.as_str(), " read back").as_str());
    if text::find_text(console.as_slice(), needle.as_slice()).is_none() {
        return Ok(None);
    }
    match v.read(o.path.as_str()) {
        Err(e) => Err(e),
        Ok(None) => Err(text::three("/", o.path.as_str(), " is not on the disk image, though the kernel read it back")),
        Ok(Some(data)) => {
            if data.len() == o.len && find_stray(data.as_slice(), o.seed, f).is_none() {
                let mut p = "/".to_owned();
                p.append(o.path.as_str());
                return Ok(Some(p));
            }
            let mut e = "/".to_owned();
            e.append(o.path.as_str());
            e.append(" on the disk image is not what the kernel wrote (");
            e.append(text::int_text(data.len() as i128).as_str());
            e.append(" bytes, ");
            e.append(text::int_text(o.len as i128).as_str());
            e.append(" expected)");
            Err(e)
        },
    }
}

proof fn read_back_errors_stay(
    m: read::Media,
    console: Seq<char>,
    outs: Seq<Output>,
    g: spec_fn(u8, int) -> u8,
    n: nat,
    k: nat,
)
    requires
        read_backs(m, console, outs, g, n) is Err,
        n <= k,
    ensures
        read_backs(m, console, outs, g, k) == read_backs(m, console, outs, g, n),
    decreases k,
{
    if n < k {
        read_back_errors_stay(m, console, outs, g, n, (k - 1) as nat);
    }
}

fn check_outputs<F: Fn(u8, usize) -> u8>(v: &Volume<'_>, console: &Vec<char>, outs: &Vec<Output>, f: &F) -> (r: Result<
    Vec<String>,
    String,
>)
    requires
        read::fits(v@),
        forall|s: u8, i: usize| #[trigger] f.requires((s, i)),
    ensures
        forall|g: spec_fn(u8, int) -> u8| #[trigger]
            writes(*f, g) ==> match r {
                Ok(p) => read_backs(v@, console@, outs@, g, outs@.len()) == Ok::<Seq<Seq<char>>, Seq<char>>(
                    text::views(p@),
                ),
                Err(e) => read_backs(v@, console@, outs@, g, outs@.len()) == Err::<Seq<Seq<char>>, Seq<char>>(e@),
            },
{
    let mut out: Vec<String> = Vec::new();
    let mut i: usize = 0;
    assert(text::views(out@) =~= seq![]);
    while i < outs.len()
        invariant
            i <= outs@.len(),
            read::fits(v@),
            forall|s: u8, i: usize| #[trigger] f.requires((s, i)),
            forall|g: spec_fn(u8, int) -> u8| #[trigger]
                writes(*f, g) ==> read_backs(v@, console@, outs@, g, i as nat) == Ok::<Seq<Seq<char>>, Seq<char>>(
                    text::views(out@),
                ),
        decreases outs@.len() - i,
    {
        match check_output(v, console, &outs[i], f) {
            Err(e) => {
                assert forall|g: spec_fn(u8, int) -> u8| #[trigger] writes(*f, g) implies read_backs(
                    v@,
                    console@,
                    outs@,
                    g,
                    outs@.len(),
                ) == Err::<Seq<Seq<char>>, Seq<char>>(e@) by {
                    read_back_errors_stay(v@, console@, outs@, g, (i + 1) as nat, outs@.len());
                }
                return Err(e);
            },
            Ok(None) => {},
            Ok(Some(p)) => {
                let ghost before = text::views(out@);
                let ghost added = p@;
                out.push(p);
                assert(text::views(out@) =~= before.push(added));
            },
        }
        i += 1;
    }
    Ok(out)
}

proof fn still_there_stays(m: read::Media, removed: Seq<Seq<char>>, n: nat, k: nat)
    requires
        still_there(m, removed, n) is Some,
        n <= k,
    ensures
        still_there(m, removed, k) == still_there(m, removed, n),
    decreases k,
{
    if n < k {
        still_there_stays(m, removed, n, (k - 1) as nat);
    }
}

fn check_removed(v: &Volume<'_>, removed: &Vec<String>) -> (r: Option<String>)
    requires
        read::fits(v@),
    ensures
        match r {
            Some(e) => still_there(v@, text::views(removed@), removed@.len()) == Some(e@),
            None => still_there(v@, text::views(removed@), removed@.len()) == None::<Seq<char>>,
        },
{
    let ghost all = text::views(removed@);
    let mut i: usize = 0;
    while i < removed.len()
        invariant
            i <= removed@.len(),
            all == text::views(removed@),
            read::fits(v@),
            still_there(v@, all, i as nat) is None,
        decreases removed@.len() - i,
    {
        let name = removed[i].as_str();
        assert(all[i as int] == name@);
        let wrong = match v.has(name) {
            Err(e) => Some(e),
            Ok(false) => None,
            Ok(true) => Some(text::three("/", name, " is still on the disk image, though the kernel removed it")),
        };
        if let Some(e) = wrong {
            proof {
                still_there_stays(v@, all, (i + 1) as nat, all.len());
            }
            return Some(e);
        }
        i += 1;
    }
    None
}

/// The volume after a clean exit, checked; `console` is what the guest printed, which says which
/// checks claim to have written their files. `outs` are those files, `removed` the names that
/// should be gone, and `out_byte` gives the byte that a check writes at a place, from a seed. A
/// line for the report.
pub fn verify_clean<F: Fn(u8, usize) -> u8>(
    bytes: &[u8],
    console: &str,
    outs: &Vec<Output>,
    removed: &Vec<String>,
    out_byte: &F,
) -> (r: Result<String, String>)
    requires
        forall|s: u8, i: usize| #[trigger] out_byte.requires((s, i)),
    ensures
        forall|g: spec_fn(u8, int) -> u8| #[trigger]
            writes(*out_byte, g) ==> match r {
                Ok(l) => clean_of(bytes@, console@, outs@, text::views(removed@), g) == Ok::<Seq<char>, Seq<char>>(l@),
                Err(e) => clean_of(bytes@, console@, outs@, text::views(removed@), g) == Err::<Seq<char>, Seq<char>>(
                    e@,
                ),
            },
{
    let v = match Volume::open(bytes) {
        Ok(v) => v,
        Err(e) => {
            return Err(e);
        },
    };
    let report = match v.check() {
        Ok(r) => r,
        Err(e) => {
            let mut m = "the disk image after the run is inconsistent: ".to_owned();
            m.append(e.as_str());
            return Err(m);
        },
    };
    if report.lost != 0 || report.fats_differ != 0 {
        let mut m = "the disk image after a clean exit lost ".to_owned();
        m.append(text::int_text(report.lost as i128).as_str());
        m.append(" clusters, and its tables differ in ");
        m.append(text::int_text(report.fats_differ as i128).as_str());
        m.append(" entries");
        return Err(m);
    }
    let paths = match check_outputs(&v, &text::chars(console), outs, out_byte) {
        Ok(p) => p,
        Err(e) => {
            return Err(e);
        },
    };
    if let Some(e) = check_removed(&v, removed) {
        return Err(e);
    }
    let mut line = "disk image: FAT16 consistent, ".to_owned();
    line.append(text::int_text(report.files as i128).as_str());
    line.append(" files, ");
    line.append(text::int_text(report.dirs as i128).as_str());
    line.append(" directories, no lost cluster, the tables the same");
    let ghost front = line@;
    if paths.len() > 0 {
        let mut tail = "; kbuild read back ".to_owned();
        tail.append(text::join(&paths, " and ").as_str());
        line.append(tail.as_str());
    }
    assert(front + Seq::<char>::empty() =~= front);
    assert(text::views(paths@).len() == paths@.len());
    assert(line@ == clean_line(report.files as int, report.dirs as int, text::views(paths@)));
    Ok(line)
}

// ---- after a power cut ----

/// What a power cut left on the run's copy.
#[derive(Debug, Clone, Copy)]
pub struct Crashed {
    pub files: u32,
    pub lost: u32,
    pub fats_differ: u32,
    /// Files of the crash workload that were found, and bytes of them that were checked.
    pub crash_files: usize,
    pub crash_bytes: usize,
}

/// How many bytes the first `n` files hold, or what is wrong with one: a byte that the workload
/// never wrote.
pub open spec fn workload(files: Seq<(Seq<char>, Seq<u8>)>, g: spec_fn(u8, int) -> u8, n: nat) -> Result<int, Seq<char>>
    decreases n,
{
    if n == 0 {
        Ok(0)
    } else {
        match workload(files, g, (n - 1) as nat) {
            Err(e) => Err(e),
            Ok(before) => {
                let (name, data) = files[n - 1];
                match stray_from(data, CRASH_SEED, g, 0) {
                    None => Ok(before + data.len()),
                    Some(at) => Err(
                        "/CRASH/"@ + name + " holds a byte at "@ + text::decimal(at) + ", below its size of "@
                            + text::decimal(data.len() as int) + ", that the workload never wrote"@,
                    ),
                }
            },
        }
    }
}

/// The workload's files on a volume. Its directory may not have reached the disk before the cut.
pub open spec fn crash_files_of(m: read::Media) -> Result<Seq<(Seq<char>, Seq<u8>)>, Seq<char>> {
    match read::files_in(m, CRASH_DIR@) {
        Err(e) => Err(e),
        Ok(None) => Ok(seq![]),
        Ok(Some(files)) => Ok(files),
    }
}

/// How many bytes the workload's files hold, all together.
pub open spec fn total_bytes(files: Seq<(Seq<char>, Seq<u8>)>, n: nat) -> int
    decreases n,
{
    if n == 0 {
        0
    } else {
        total_bytes(files, (n - 1) as nat) + files[n - 1].1.len()
    }
}

proof fn workload_counts(files: Seq<(Seq<char>, Seq<u8>)>, g: spec_fn(u8, int) -> u8, n: nat, k: nat)
    requires
        n <= k <= files.len(),
    ensures
        workload(files, g, n) is Err ==> workload(files, g, k) == workload(files, g, n),
        workload(files, g, n) is Ok ==> workload(files, g, n)->Ok_0 == total_bytes(files, n),
        0 <= total_bytes(files, n) <= total_bytes(files, k),
    decreases k,
{
    if n < k {
        workload_counts(files, g, n, (k - 1) as nat);
    } else if n > 0 {
        workload_counts(files, g, (n - 1) as nat, (n - 1) as nat);
    }
}

fn check_workload<F: Fn(u8, usize) -> u8>(files: &Vec<(String, Vec<u8>)>, f: &F) -> (r: Result<usize, String>)
    requires
        forall|s: u8, i: usize| #[trigger] f.requires((s, i)),
        total_bytes(read::file_views(files@), files@.len()) <= usize::MAX,
    ensures
        forall|g: spec_fn(u8, int) -> u8| #[trigger]
            writes(*f, g) ==> match r {
                Ok(n) => workload(read::file_views(files@), g, files@.len()) == Ok::<int, Seq<char>>(n as int),
                Err(e) => workload(read::file_views(files@), g, files@.len()) == Err::<int, Seq<char>>(e@),
            },
{
    let ghost all = read::file_views(files@);
    let ghost any = |seed: u8, i: int| 0u8;
    let mut total: usize = 0;
    let mut i: usize = 0;
    while i < files.len()
        invariant
            i <= files@.len(),
            all == read::file_views(files@),
            forall|s: u8, i: usize| #[trigger] f.requires((s, i)),
            total_bytes(all, all.len()) <= usize::MAX,
            total == total_bytes(all, i as nat),
            forall|g: spec_fn(u8, int) -> u8| #[trigger]
                writes(*f, g) ==> workload(all, g, i as nat) == Ok::<int, Seq<char>>(total as int),
        decreases files@.len() - i,
    {
        let (name, data) = (&files[i].0, &files[i].1);
        assert(all[i as int] == (name@, data@));
        if let Some(at) = find_stray(data.as_slice(), CRASH_SEED, f) {
            let mut e = "/CRASH/".to_owned();
            e.append(name.as_str());
            e.append(" holds a byte at ");
            e.append(text::int_text(at as i128).as_str());
            e.append(", below its size of ");
            e.append(text::int_text(data.len() as i128).as_str());
            e.append(", that the workload never wrote");
            assert forall|g: spec_fn(u8, int) -> u8| #[trigger] writes(*f, g) implies workload(all, g, all.len())
                == Err::<int, Seq<char>>(e@) by {
                assert(workload(all, g, (i + 1) as nat) == Err::<int, Seq<char>>(e@));
                workload_counts(all, g, (i + 1) as nat, all.len());
            }
            return Err(e);
        }
        proof {
            workload_counts(all, any, (i + 1) as nat, all.len());
        }
        total = total + data.len();
        i += 1;
    }
    Ok(total)
}

/// What a volume comes to after a power cut: the counts, and the workload's files and bytes.
pub open spec fn crashed_of(b: Seq<u8>, g: spec_fn(u8, int) -> u8) -> Result<(int, int, int, int, int), Seq<char>> {
    let m = fat16::media_of(b);
    match fat16::open_wrong(b) {
        Some(e) => Err(e),
        None => match read::surveyed(m) {
            Err(e) => Err(e),
            Ok(w) => {
                let rest = read::rest(m, w.seen, m.clusters + 2);
                match crash_files_of(m) {
                    Err(e) => Err(e),
                    Ok(files) => match workload(files, g, files.len()) {
                        Err(e) => Err(e),
                        Ok(total) => Ok(
                            (
                                w.files as int,
                                rest.lost as int,
                                rest.differ as int,
                                files.len() as int,
                                total,
                            ),
                        ),
                    },
                }
            },
        },
    }
}

/// The volume after the guest was killed, checked by the crash rule. `out_byte` gives the byte that
/// the workload writes at a place, from a seed.
pub fn verify_crashed<F: Fn(u8, usize) -> u8>(bytes: &[u8], out_byte: &F) -> (r: Result<Crashed, String>)
    requires
        forall|s: u8, i: usize| #[trigger] out_byte.requires((s, i)),
        crash_files_of(fat16::media_of(bytes@)) is Ok ==> total_bytes(
            crash_files_of(fat16::media_of(bytes@))->Ok_0,
            crash_files_of(fat16::media_of(bytes@))->Ok_0.len(),
        ) <= usize::MAX,
    ensures
        forall|g: spec_fn(u8, int) -> u8| #[trigger]
            writes(*out_byte, g) ==> match r {
                Ok(c) => crashed_of(bytes@, g) == Ok::<(int, int, int, int, int), Seq<char>>(
                    (
                        c.files as int,
                        c.lost as int,
                        c.fats_differ as int,
                        c.crash_files as int,
                        c.crash_bytes as int,
                    ),
                ),
                Err(e) => crashed_of(bytes@, g) == Err::<(int, int, int, int, int), Seq<char>>(e@),
            },
{
    let v = match Volume::open(bytes) {
        Ok(v) => v,
        Err(e) => {
            return Err(e);
        },
    };
    let report = match v.check() {
        Ok(r) => r,
        Err(e) => {
            return Err(e);
        },
    };
    let files = match v.files_in(CRASH_DIR) {
        Err(e) => {
            return Err(e);
        },
        Ok(None) => {
            let none: Vec<(String, Vec<u8>)> = Vec::new();
            assert(read::file_views(none@) =~= seq![]);
            none
        },
        Ok(Some(f)) => f,
    };
    assert(read::file_views(files@).len() == files@.len());
    match check_workload(&files, out_byte) {
        Err(e) => Err(e),
        Ok(total) => Ok(
            Crashed {
                files: report.files,
                lost: report.lost,
                fats_differ: report.fats_differ,
                crash_files: files.len(),
                crash_bytes: total,
            },
        ),
    }
}

// ---- what the checks show ----

proof fn nothing_strays(data: Seq<u8>, seed: u8, g: spec_fn(u8, int) -> u8, i: int, k: int)
    requires
        0 <= i <= k < data.len(),
        stray_from(data, seed, g, i) is None,
    ensures
        data[k] == g(seed, k),
    decreases data.len() - i,
{
    if i < k {
        nothing_strays(data, seed, g, i + 1, k);
    }
}

proof fn every_claim_was_checked(
    m: read::Media,
    console: Seq<char>,
    outs: Seq<Output>,
    g: spec_fn(u8, int) -> u8,
    n: nat,
    i: int,
)
    requires
        0 <= i < n <= outs.len(),
        read_backs(m, console, outs, g, n) is Ok,
    ensures
        read_back(m, console, outs[i], g) is Ok,
    decreases n,
{
    if i < n - 1 {
        every_claim_was_checked(m, console, outs, g, (n - 1) as nat, i);
    }
}

proof fn every_name_was_checked(m: read::Media, removed: Seq<Seq<char>>, n: nat, i: int)
    requires
        0 <= i < n <= removed.len(),
        still_there(m, removed, n) is None,
    ensures
        read::find(m, removed[i]) matches Ok(None),
    decreases n,
{
    if i < n - 1 {
        every_name_was_checked(m, removed, (n - 1) as nat, i);
    }
}

/// The kernel's word is not taken: on a volume that passes after a clean exit nothing is lost and
/// the tables agree, every file that the console claims was read back is there, byte for byte as it
/// was written, and every name that was removed is gone.
pub proof fn passing_volumes_hold_what_was_claimed(
    b: Seq<u8>,
    console: Seq<char>,
    outs: Seq<Output>,
    removed: Seq<Seq<char>>,
    g: spec_fn(u8, int) -> u8,
)
    requires
        clean_of(b, console, outs, removed, g) is Ok,
    ensures
        ({
            let m = fat16::media_of(b);
            &&& read::surveyed(m) matches Ok(w) && read::rest(m, w.seen, m.clusters + 2).lost == 0 && read::rest(
                m,
                w.seen,
                m.clusters + 2,
            ).differ == 0
            &&& forall|i: int|
                #![trigger outs[i]]
                0 <= i < outs.len() && bytes::find(console, claim(outs[i].path@), 0) is Some ==> (read::read(
                    m,
                    outs[i].path@,
                ) matches Ok(Some(data)) && data.len() == outs[i].len && forall|k: int|
                    0 <= k < data.len() ==> #[trigger] data[k] == g(outs[i].seed, k))
            &&& forall|i: int| 0 <= i < removed.len() ==> read::find(m, #[trigger] removed[i]) matches Ok(None)
        }),
{
    let m = fat16::media_of(b);
    assert forall|i: int|
        #![trigger outs[i]]
        0 <= i < outs.len() && bytes::find(console, claim(outs[i].path@), 0) is Some implies (read::read(
        m,
        outs[i].path@,
    ) matches Ok(Some(data)) && data.len() == outs[i].len && forall|k: int|
        0 <= k < data.len() ==> #[trigger] data[k] == g(outs[i].seed, k)) by {
        every_claim_was_checked(m, console, outs, g, outs.len(), i);
        let data = read::read(m, outs[i].path@)->Ok_0->0;
        assert forall|k: int| 0 <= k < data.len() implies #[trigger] data[k] == g(outs[i].seed, k) by {
            nothing_strays(data, outs[i].seed, g, 0, k);
        }
    }
    assert forall|i: int| 0 <= i < removed.len() implies read::find(m, #[trigger] removed[i]) matches Ok(None) by {
        every_name_was_checked(m, removed, removed.len(), i);
    }
}

proof fn every_file_was_checked(files: Seq<(Seq<char>, Seq<u8>)>, g: spec_fn(u8, int) -> u8, n: nat, i: int)
    requires
        0 <= i < n <= files.len(),
        workload(files, g, n) is Ok,
    ensures
        stray_from(files[i].1, CRASH_SEED, g, 0) is None,
    decreases n,
{
    if i < n - 1 {
        every_file_was_checked(files, g, (n - 1) as nat, i);
    }
}

/// On a volume that passes after a power cut every byte below the size of a workload file is one
/// that the workload wrote there.
pub proof fn cut_volumes_hold_only_what_was_written(b: Seq<u8>, g: spec_fn(u8, int) -> u8, i: int, k: int)
    requires
        crashed_of(b, g) is Ok,
        0 <= i < crash_files_of(fat16::media_of(b))->Ok_0.len(),
        0 <= k < crash_files_of(fat16::media_of(b))->Ok_0[i].1.len(),
    ensures
        crash_files_of(fat16::media_of(b))->Ok_0[i].1[k] == g(CRASH_SEED, k),
{
    let files = crash_files_of(fat16::media_of(b))->Ok_0;
    every_file_was_checked(files, g, files.len(), i);
    nothing_strays(files[i].1, CRASH_SEED, g, 0, k);
}

} // verus!
