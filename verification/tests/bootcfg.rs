//! Boot entries.

use kbuild::bootcfg::{render, Chain, Entries, CHAIN_ENTRY};

/// A file's lines, each with its end.
fn concat_lines(lines: &[&str]) -> String {
    lines.iter().map(|l| format!("{l}\n")).collect()
}

#[test]
fn writes_the_uefi_test_list_the_loaders_parser_is_tested_against() {
    let written = render(&Entries {
        timeout: 0,
        default: "normal",
        on_failure: "reboot",
        cmdline: "kintane.canary=cmdline-intact",
        chain: Chain::Nothing,
    });
    assert_eq!(written, concat_lines(&[
            "# kinboot boot entries, written by kbuild. See docs/bootloader.md#boot-options.",
            "timeout 0",
            "default normal",
            "on-failure reboot",
            "",
            "entry normal",
            "title KinTane",
            "mode normal",
            "cmdline kintane.canary=cmdline-intact",
            "",
            "entry safe",
            "title KinTane (safe mode)",
            "mode safe",
            "cmdline kintane.canary=cmdline-intact",
            "",
            "entry recovery",
            "title KinTane (recovery)",
            "mode recovery",
            "cmdline kintane.canary=cmdline-intact",
        ]));
}

#[test]
fn writes_the_bios_chain_list_the_loaders_parser_is_tested_against() {
    let written = render(&Entries {
        timeout: 5,
        default: CHAIN_ENTRY,
        on_failure: "firmware",
        cmdline: "  ",
        chain: Chain::Partition(2),
    });
    assert_eq!(written, concat_lines(&[
            "# kinboot boot entries, written by kbuild. See docs/bootloader.md#boot-options.",
            "timeout 5",
            "default chain-test",
            "on-failure firmware",
            "",
            "entry normal",
            "title KinTane",
            "mode normal",
            "",
            "entry safe",
            "title KinTane (safe mode)",
            "mode safe",
            "",
            "entry recovery",
            "title KinTane (recovery)",
            "mode recovery",
            "",
            "entry chain-test",
            "title Chainload test",
            "chain-partition 2",
        ]));
}
