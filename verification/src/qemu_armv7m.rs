//! The QEMU machine for ARMv7-M: `mps2-an385`, a Cortex-M3.
//!
//! QEMU's M-profile `-kernel` loads the ELF's segments at their load addresses, which puts the
//! initial copy of `.data` in code memory, as the image expects, and resets the core. There is no
//! `-append`: no loader runs, so there is nowhere for a command line to arrive.

use vstd::prelude::*;
use vstd::string::*;

use crate::kcfg::resolve;
use crate::kcfg::resolve::Resolution;
use crate::qemu;
use crate::qemu::Machine;
use crate::text;

verus! {

/// The machine.
pub open spec fn setup(o: resolve::Outcome, image: Seq<char>, log: Seq<char>) -> qemu::Setup {
    qemu::Setup {
        binary: "qemu-system-arm"@,
        args: seq![
            "-machine"@,
            "mps2-an385"@,
            "-kernel"@,
            image,
            "-semihosting-config"@,
            "enable=on,target=native"@,
        ] + qemu::console_args() + qemu::log_args(log),
        success_code: 0,
        input: qemu::typed(o),
        serial_probe: qemu::on(o, "SERIAL_IRQ_TEST"@),
        net_port: None,
        net_peer: false,
        disk: None,
    }
}

/// The machine for an image, with a file for QEMU's log.
pub fn machine(res: &Resolution, image: &str, log: &str) -> (r: Machine)
    ensures
        r@ == setup(res@, image@, log@),
{
    let mut args: Vec<String> = Vec::new();
    assert(text::views(args@) =~= Seq::<Seq<char>>::empty());
    text::push_text(&mut args, "-machine");
    text::push_text(&mut args, "mps2-an385");
    text::push_text(&mut args, "-kernel");
    text::push_text(&mut args, image);
    text::push_text(&mut args, "-semihosting-config");
    text::push_text(&mut args, "enable=on,target=native");
    assert(text::views(args@) == seq![
        "-machine"@,
        "mps2-an385"@,
        "-kernel"@,
        image@,
        "-semihosting-config"@,
        "enable=on,target=native"@,
    ]);
    qemu::push_console_and_log(&mut args, log);
    assert(text::views(args@) == setup(res@, image@, log@).args);
    Machine {
        binary: "qemu-system-arm",
        args,
        success_code: 0,
        input: qemu::typed_bytes(res),
        serial_probe: res.is_on("SERIAL_IRQ_TEST"),
        net_port: None,
        net_peer: false,
        disk: None,
    }
}

} // verus!
