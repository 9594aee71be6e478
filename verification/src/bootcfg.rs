//! Boot entries and the kernel command line, from the configuration.
//!
//! Every boot path gets the same arguments. A KinTane loader reads them from the entry list on its
//! boot medium; a direct kernel boot gets [`kernel_command_line`].

use vstd::prelude::*;
use vstd::string::*;

use crate::bytes;
use crate::kcfg::expr::Tri;
use crate::kcfg::resolve;
use crate::kcfg::resolve::Resolution;
use crate::text;

verus! {

/// What the chainload test entry boots, if the configuration has one.
#[derive(Clone, Copy, Debug)]
pub enum Chain {
    Nothing,
    /// An EFI application on the boot partition.
    File(&'static str),
    /// A partition's boot record, numbered from 1.
    Partition(u8),
}

/// The name of the chainload test entry.
pub const CHAIN_ENTRY: &'static str = "chain-test";

/// The inputs to an entry list.
#[derive(Clone, Copy, Debug)]
pub struct Entries<'a> {
    pub timeout: i64,
    pub default: &'a str,
    pub on_failure: &'a str,
    pub cmdline: &'a str,
    pub chain: Chain,
}

/// Whether a symbol is on.
pub open spec fn on(o: resolve::Outcome, symbol: Seq<char>) -> bool {
    resolve::tri_in(o.names, o.vals, symbol) != Tri::N
}

/// The boot mode that a configuration defaults to.
pub open spec fn mode_of(o: resolve::Outcome) -> Seq<char> {
    if on(o, "BOOT_MODE_SAFE"@) {
        "safe"@
    } else if on(o, "BOOT_MODE_RECOVERY"@) {
        "recovery"@
    } else {
        "normal"@
    }
}

/// The boot mode that the configuration defaults to, as `mode=` spells it.
pub fn mode_name(res: &Resolution) -> (r: &'static str)
    ensures
        r@ == mode_of(res@),
{
    if res.is_on("BOOT_MODE_SAFE") {
        "safe"
    } else if res.is_on("BOOT_MODE_RECOVERY") {
        "recovery"
    } else {
        "normal"
    }
}

fn trimmed_text(s: &str) -> (r: String)
    ensures
        r@ == text::trimmed(s@),
{
    text::string(text::trim(text::chars(s).as_slice()).as_slice())
}

/// The line that a boot without a KinTane loader passes: what the default entry would.
pub open spec fn command_line(o: resolve::Outcome) -> Seq<char> {
    let extra = text::trimmed(resolve::str_in(o, "CMDLINE"@));
    if extra.len() == 0 {
        "mode="@ + mode_of(o)
    } else {
        "mode="@ + mode_of(o) + " "@ + extra
    }
}

/// The line that a boot without a KinTane loader passes.
pub fn kernel_command_line(res: &Resolution) -> (r: String)
    ensures
        r@ == command_line(res@),
{
    let extra = trimmed_text(res.str("CMDLINE"));
    let mut r = "mode=".to_owned();
    r.append(mode_name(res));
    if !extra.as_str().is_empty() {
        r.append(" ");
        r.append(extra.as_str());
    }
    r
}

/// One entry that boots the kernel.
pub open spec fn kernel_entry(name: Seq<char>, title: Seq<char>, cmdline: Seq<char>) -> Seq<char> {
    "\nentry "@ + name + "\ntitle "@ + title + "\nmode "@ + name + "\n"@ + if cmdline.len() == 0 {
        seq![]
    } else {
        "cmdline "@ + cmdline + "\n"@
    }
}

/// The chainload test entry.
pub open spec fn chain_entry(c: Chain) -> Seq<char> {
    match c {
        Chain::Nothing => seq![],
        Chain::File(path) => "\nentry chain-test\ntitle Chainload test\nchain-file "@ + path@ + "\n"@,
        Chain::Partition(n) => "\nentry chain-test\ntitle Chainload test\nchain-partition "@ + text::decimal(n as int)
            + "\n"@,
    }
}

/// What an entry list begins with.
pub open spec fn list_head(timeout: int, default: Seq<char>, on_failure: Seq<char>) -> Seq<char> {
    "# kinboot boot entries, written by kbuild. See docs/bootloader.md#boot-options.\n"@ + "timeout "@ + text::decimal(
        timeout,
    ) + "\ndefault "@ + default + "\non-failure "@ + on_failure + "\n"@
}

/// An entry list.
pub open spec fn rendered(timeout: int, default: Seq<char>, on_failure: Seq<char>, cmdline: Seq<char>, c: Chain) -> Seq<
    char,
> {
    let line = text::trimmed(cmdline);
    list_head(timeout, default, on_failure) + kernel_entry("normal"@, "KinTane"@, line) + kernel_entry(
        "safe"@,
        "KinTane (safe mode)"@,
        line,
    ) + kernel_entry("recovery"@, "KinTane (recovery)"@, line) + chain_entry(c)
}

fn entry_text(name: &str, title: &str, cmdline: &str) -> (r: String)
    ensures
        r@ == kernel_entry(name@, title@, cmdline@),
{
    let mut r = "\nentry ".to_owned();
    r.append(name);
    r.append("\ntitle ");
    r.append(title);
    r.append("\nmode ");
    r.append(name);
    r.append("\n");
    let ghost front = r@;
    if !cmdline.is_empty() {
        r.append(text::three("cmdline ", cmdline, "\n").as_str());
    }
    assert(front + Seq::<char>::empty() =~= front);
    r
}

fn chain_text(c: Chain) -> (r: String)
    ensures
        r@ == chain_entry(c),
{
    match c {
        Chain::Nothing => {
            assert(Seq::<char>::empty() =~= seq![]);
            String::new()
        },
        Chain::File(path) => text::three("\nentry chain-test\ntitle Chainload test\nchain-file ", path, "\n"),
        Chain::Partition(n) => text::three(
            "\nentry chain-test\ntitle Chainload test\nchain-partition ",
            text::int_text(n as i128).as_str(),
            "\n",
        ),
    }
}

/// An entry list.
pub fn render(e: &Entries<'_>) -> (r: String)
    ensures
        r@ == rendered(e.timeout as int, e.default@, e.on_failure@, e.cmdline@, e.chain),
{
    let mut r = "# kinboot boot entries, written by kbuild. See docs/bootloader.md#boot-options.\n".to_owned();
    r.append("timeout ");
    r.append(text::int_text(e.timeout as i128).as_str());
    r.append("\ndefault ");
    r.append(e.default);
    r.append("\non-failure ");
    r.append(e.on_failure);
    r.append("\n");
    let cmdline = trimmed_text(e.cmdline);
    r.append(entry_text("normal", "KinTane", cmdline.as_str()).as_str());
    r.append(entry_text("safe", "KinTane (safe mode)", cmdline.as_str()).as_str());
    r.append(entry_text("recovery", "KinTane (recovery)", cmdline.as_str()).as_str());
    r.append(chain_text(e.chain).as_str());
    r
}

/// The entry list for a configuration.
pub open spec fn entries_of(o: resolve::Outcome, chain: Chain) -> Seq<char> {
    let c = if on(o, "CHAIN_TEST"@) {
        chain
    } else {
        Chain::Nothing
    };
    rendered(
        resolve::int_in(o, "BOOT_MENU_TIMEOUT"@),
        if c is Nothing {
            mode_of(o)
        } else {
            CHAIN_ENTRY@
        },
        if on(o, "QEMU_EXIT"@) {
            "reboot"@
        } else {
            "firmware"@
        },
        resolve::str_in(o, "CMDLINE"@),
        c,
    )
}

/// The entry list for this configuration.
///
/// Test builds, which have `QEMU_EXIT`, fail by rebooting: that ends the run within a second, where
/// handing back to the firmware would leave it trying its other boot options until the harness
/// timed out.
pub fn entry_list(res: &Resolution, chain: Chain) -> (r: String)
    ensures
        r@ == entries_of(res@, chain),
{
    let chain = if res.is_on("CHAIN_TEST") {
        chain
    } else {
        Chain::Nothing
    };
    let default: &str = match chain {
        Chain::Nothing => mode_name(res),
        _ => CHAIN_ENTRY,
    };
    render(
        &Entries {
            timeout: res.int_value("BOOT_MENU_TIMEOUT"),
            default,
            on_failure: if res.is_on("QEMU_EXIT") {
                "reboot"
            } else {
                "firmware"
            },
            cmdline: res.str("CMDLINE"),
            chain,
        },
    )
}

/// Every boot path gets the same arguments: the entry list holds an entry for the configuration's
/// own mode, and its line is what a boot without a loader passes behind that mode.
pub proof fn boot_paths_get_the_same_arguments(o: resolve::Outcome, chain: Chain)
    ensures
        ({
            let line = text::trimmed(resolve::str_in(o, "CMDLINE"@));
            &&& exists|i: int, title: Seq<char>| #[trigger]
                bytes::stands_at(entries_of(o, chain), i, kernel_entry(mode_of(o), title, line))
            &&& command_line(o) == "mode="@ + mode_of(o) + if line.len() == 0 {
                seq![]
            } else {
                " "@ + line
            }
        }),
{
    let line = text::trimmed(resolve::str_in(o, "CMDLINE"@));
    let c = if on(o, "CHAIN_TEST"@) {
        chain
    } else {
        Chain::Nothing
    };
    let list = entries_of(o, chain);
    let (a, b, d) = (
        kernel_entry("normal"@, "KinTane"@, line),
        kernel_entry("safe"@, "KinTane (safe mode)"@, line),
        kernel_entry("recovery"@, "KinTane (recovery)"@, line),
    );
    let tail = chain_entry(c);
    let n = (list.len() - a.len() - b.len() - d.len() - tail.len()) as int;
    let head = list.subrange(0, n);
    assert(list =~= head + a + b + d + tail);
    let (at, title, entry) = if mode_of(o) == "safe"@ {
        (n + a.len(), "KinTane (safe mode)"@, b)
    } else if mode_of(o) == "recovery"@ {
        (n + a.len() + b.len(), "KinTane (recovery)"@, d)
    } else {
        (n, "KinTane"@, a)
    };
    assert(list.subrange(at, at + entry.len()) =~= entry);
    assert(bytes::stands_at(list, at, kernel_entry(mode_of(o), title, line)));
    assert(command_line(o) =~= "mode="@ + mode_of(o) + if line.len() == 0 {
        seq![]
    } else {
        " "@ + line
    });
}

} // verus!
