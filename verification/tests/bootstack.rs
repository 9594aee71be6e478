//! The size of the boot stack.

use kbuild::bootstack::check_listing;

fn listing(bottom: u64, top: u64) -> String {
    format!(
        "{bottom:016x} B __stack_bottom\n{top:016x} B __stack_top\n0000000000100000 T _start\n"
    )
}

#[test]
fn a_stack_of_the_configured_size_passes() {
    assert_eq!(check_listing(&listing(0x1000, 0x9000), 32), Ok(0x8000));
    // ARMv7-M reserves exactly what it is asked for, a page-less 1 KiB granularity.
    assert_eq!(check_listing(&listing(0x2000_0000, 0x2000_0400), 1), Ok(0x400));
}

#[test]
fn a_size_rounded_up_to_a_page_passes() {
    assert_eq!(check_listing(&listing(0x1000, 0x4000), 10), Ok(0x3000));
}

#[test]
fn a_port_that_ignores_the_configuration_fails() {
    // The fixed 16 KiB every port but ARMv7-M used to reserve, asked for 32 or 8.
    let fixed = listing(0x1000, 0x5000);
    assert!(
        check_listing(&fixed, 32)
            .unwrap_err()
            .contains("does not size")
    );
    assert!(
        check_listing(&fixed, 8)
            .unwrap_err()
            .contains("does not size")
    );
    // ...which the default cannot tell apart, and CI's non-default build can.
    assert!(check_listing(&fixed, 16).is_ok());
}

#[test]
fn an_image_without_the_symbols_fails() {
    let e = check_listing("0000000000100000 T _start\n", 16).unwrap_err();
    assert!(e.contains("defines no __stack_bottom"), "{e}");
}
