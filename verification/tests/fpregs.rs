//! Floating-point arithmetic in a listing.

use kbuild::fpregs::{count_in_listing, AARCH64, X86_64};

/// The line that broke the register-name check: `sub` whose encoding begins `d1`.
#[test]
fn an_encoding_that_looks_like_a_register_is_not_counted() {
    let listing = "8000012d14: d1000442   \tsub\tx2, x2, #0x1\n";
    assert_eq!(count_in_listing(listing, &AARCH64), 0);
}

/// `fadd` is four hexadecimal digits, and so are `fdiv` and `fcc`. A rule that finds the
/// mnemonic by looking for the first field that is *not* hexadecimal skips it as more
/// encoding and returns the first operand, reporting no arithmetic on exactly the
/// instruction it was written to find. That rule was in this file until this test.
#[test]
fn a_mnemonic_spelled_in_hexadecimal_digits_is_still_a_mnemonic() {
    let listing = "80000104: 1e602821   \tfadd\td1, d1, d0\n";
    assert_eq!(count_in_listing(listing, &AARCH64), 1);
    let divide = "80000108: 1e601821   \tfdiv\td1, d1, d0\n";
    assert_eq!(count_in_listing(divide, &AARCH64), 1);
}

#[test]
fn arithmetic_is_counted_on_both_ports() {
    let arm =
        "80000100: 1e600842   \tfmul\td2, d2, d0\n80000104: 1e602821   \tfadd\td1, d1, d0\n";
    assert_eq!(count_in_listing(arm, &AARCH64), 2);
    let x86 = "8000010000: f2 0f 59 c1  \tmulsd\t%xmm1, %xmm0\n";
    assert_eq!(count_in_listing(x86, &X86_64), 1);
}

/// A soft-float program calls into compiler_builtins instead; the call is not arithmetic.
#[test]
fn a_call_to_the_soft_float_helper_is_not_arithmetic() {
    let listing = "80000100: 94000123   \tbl\t0x8000048c <__muldf3>\n";
    assert_eq!(count_in_listing(listing, &AARCH64), 0);
}

#[test]
fn a_mnemonic_named_in_an_operand_is_not_counted() {
    // `fmul` appearing as part of a symbol name in the operand field, not as the
    // instruction: still not arithmetic.
    let listing = "80000100: 94000123   \tbl\t0x8000048c <some_fmul_helper>\n";
    assert_eq!(count_in_listing(listing, &AARCH64), 0);
}
