//! Line tables.

use kbuild::dwarf::{parse, LineTable, Sections};

const DW_LNS_COPY: u8 = 1;
const DW_LNS_ADVANCE_PC: u8 = 2;
const DW_LNS_ADVANCE_LINE: u8 = 3;
const DW_LNS_SET_FILE: u8 = 4;
const DW_LNE_END_SEQUENCE: u8 = 1;
const DW_LNE_SET_ADDRESS: u8 = 2;

fn uleb(mut v: u64, out: &mut Vec<u8>) {
    loop {
        let b = (v & 0x7f) as u8;
        v >>= 7;
        if v == 0 {
            out.push(b);
            return;
        }
        out.push(b | 0x80);
    }
}

/// The opcodes both test programs share: two rows in `file`, then the end.
///
/// 0x1000 line 10, 0x1004 line 12, sequence ends at 0x1010.
fn program(file: u64, out: &mut Vec<u8>) {
    out.extend([0, 9, DW_LNE_SET_ADDRESS]);
    out.extend(0x1000u64.to_le_bytes());
    out.push(DW_LNS_SET_FILE);
    uleb(file, out);
    out.push(DW_LNS_ADVANCE_LINE);
    uleb(9, out); // line 1 -> 10
    out.push(DW_LNS_COPY);
    // Special opcode: address += 4, line += 2. With line_base -5, line_range 14,
    // opcode_base 13: (2 - -5) + 14 * 4 + 13 = 76.
    out.push(76);
    out.push(DW_LNS_ADVANCE_PC);
    uleb(12, out);
    out.extend([0, 1, DW_LNE_END_SEQUENCE]);
}

/// Standard header fields after `header_length`: min_inst 1, max_ops 1,
/// default_is_stmt 1, line_base -5, line_range 14, opcode_base 13.
fn common_fields(out: &mut Vec<u8>) {
    out.extend([1, 1, 1, (-5i8) as u8, 14, 13]);
    out.extend([0, 1, 1, 1, 1, 0, 0, 0, 1, 0, 0, 1]);
}

fn wrap(version: u16, pre: &[u8], header: &[u8], prog: &[u8]) -> Vec<u8> {
    let mut body = Vec::new();
    body.extend(version.to_le_bytes());
    body.extend(pre);
    body.extend((header.len() as u32).to_le_bytes());
    body.extend(header);
    body.extend(prog);
    let mut unit = (body.len() as u32).to_le_bytes().to_vec();
    unit.extend(body);
    unit
}

fn check(t: &LineTable) {
    assert_eq!(t.lookup(0x0fff), None);
    assert_eq!(t.lookup(0x1000), Some(("kernel/main/src/crash.rs", 10)));
    assert_eq!(t.lookup(0x1003), Some(("kernel/main/src/crash.rs", 10)));
    assert_eq!(t.lookup(0x1004), Some(("kernel/main/src/crash.rs", 12)));
    assert_eq!(t.lookup(0x100f), Some(("kernel/main/src/crash.rs", 12)));
    assert_eq!(t.lookup(0x1010), None, "end_sequence is exclusive");
}

#[test]
fn version_4() {
    let mut h = Vec::new();
    common_fields(&mut h);
    h.extend(b"kernel/main/src\0\0");
    h.extend(b"crash.rs\0");
    h.extend([1, 0, 0]); // dir 1, mtime, size
    h.push(0);
    let mut p = Vec::new();
    program(1, &mut p);
    let data = wrap(4, &[], &h, &p);
    let strs = Sections {
        line_str: &[],
        str: &[],
    };
    check(&parse(&data, &strs, true, 8).unwrap());
}

#[test]
fn version_5_with_line_strp() {
    // .debug_line_str: "kernel/main/src\0crash.rs\0"
    let line_str = b"kernel/main/src\0crash.rs\0";
    let mut h = Vec::new();
    common_fields(&mut h);
    // Directories: one format (path, line_strp), two entries.
    h.push(1);
    h.extend([1, 0x1f]);
    h.push(2);
    h.extend(0u32.to_le_bytes()); // comp dir; reuse the same string
    h.extend(0u32.to_le_bytes());
    // Files: (path, line_strp), (directory_index, udata), (MD5, data16).
    h.push(3);
    h.extend([1, 0x1f, 2, 0x0f, 5, 0x1e]);
    h.push(2);
    for _ in 0..2 {
        h.extend(16u32.to_le_bytes());
        h.push(1);
        h.extend([0xaa; 16]);
    }
    let mut p = Vec::new();
    program(1, &mut p);
    let data = wrap(5, &[8, 0], &h, &p);
    let strs = Sections { line_str, str: &[] };
    check(&parse(&data, &strs, true, 8).unwrap());
}

#[test]
fn a_truncated_unit_is_an_error_not_a_panic() {
    let mut h = Vec::new();
    common_fields(&mut h);
    let data = wrap(4, &[], &h, &[]);
    let strs = Sections {
        line_str: &[],
        str: &[],
    };
    for cut in 1..data.len() {
        let _ = parse(&data[..cut], &strs, true, 8);
    }
}

#[test]
fn line_zero_inherits_the_line_before_it() {
    let mut h = Vec::new();
    common_fields(&mut h);
    h.extend(b"\0crash.rs\0\0\0\0\0");
    let mut p = Vec::new();
    p.extend([0, 9, DW_LNE_SET_ADDRESS]);
    p.extend(0x1000u64.to_le_bytes());
    p.push(DW_LNS_ADVANCE_LINE);
    uleb(9, &mut p); // line 10
    p.push(DW_LNS_COPY);
    p.push(DW_LNS_ADVANCE_PC);
    uleb(4, &mut p);
    p.extend([DW_LNS_ADVANCE_LINE, 0x76]); // sleb -10: line 0
    p.push(DW_LNS_COPY);
    p.push(DW_LNS_ADVANCE_PC);
    uleb(4, &mut p);
    p.extend([0, 1, DW_LNE_END_SEQUENCE]);
    let data = wrap(4, &[], &h, &p);
    let strs = Sections {
        line_str: &[],
        str: &[],
    };
    let t = parse(&data, &strs, true, 8).unwrap();
    assert_eq!(t.lookup(0x1001), Some(("crash.rs", 10)));
    assert_eq!(t.lookup(0x1005), Some(("crash.rs", 10)));
}

#[test]
fn unsupported_versions_are_named() {
    let data = wrap(6, &[], &[], &[]);
    let strs = Sections {
        line_str: &[],
        str: &[],
    };
    let e = parse(&data, &strs, true, 8).unwrap_err();
    assert!(e.contains("version 6"), "{e}");
}
