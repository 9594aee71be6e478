//! The machines that images run on.

use kbuild::kcfg::expr::Tri;
use kbuild::kcfg::resolve::{Reason, Resolution};
use kbuild::kcfg::Val;
use kbuild::qemu::watch::{ended, fate, look, pending, Console, End, Fate, Watch};
use kbuild::qemu::{
    firmware_candidates, machine_for, needs_firmware, needs_ports, pick_firmware, Firmware, Host, Machine, NetPorts,
};

fn res(on: &[&str], ints: &[(&str, i64)], strs: &[(&str, &str)]) -> Resolution {
    let mut r = Resolution::new();
    for s in on {
        r.set(s, Val::Tri(Tri::Y), Reason::Unset);
    }
    for (k, v) in ints {
        r.set(k, Val::Int(*v), Reason::Unset);
    }
    for (k, v) in strs {
        r.set(k, Val::Str(v.to_string()), Reason::Unset);
    }
    r
}

fn ports() -> NetPorts {
    NetPorts {
        udp: 1,
        tcp: 2,
        relay_out: 3,
        relay_in: 4,
        down_out: 5,
        down_in: 6,
        inbound: 7,
        udp_service: 8,
        quiet: 9,
        peer_local: 10,
        peer_remote: 11,
    }
}

fn host() -> Host {
    Host {
        ports: Ok(ports()),
        firmware: Ok(Firmware { code: "/fw/code.fd".to_string(), vars: Some("/b/ovmf-vars.fd".to_string()) }),
        bundle: true,
    }
}

fn machine(r: &Resolution) -> Machine {
    machine_for(r, "out/kernel.elf", "b/qemu.log", &host()).unwrap()
}

#[test]
fn more_processors_than_the_kernel_has_are_refused() {
    let r = res(&["ARCH_X86_64", "SMP"], &[("QEMU_CPUS", 8), ("NR_CPUS", 4)], &[]);
    let e = machine_for(&r, "k", "l", &host()).unwrap_err();
    assert!(e.starts_with("QEMU_CPUS=8 is more than NR_CPUS=4: the kernel would start only 4 of them\n"), "{e}");
    let r = res(&["ARCH_X86_64"], &[("QEMU_CPUS", 2), ("NR_CPUS", 1)], &[]);
    assert!(machine_for(&r, "k", "l", &host()).is_ok(), "only with SMP");
}

#[test]
fn a_plain_pc_is_booted_by_qemus_own_loader() {
    let m = machine(&res(&["ARCH_I686"], &[("QEMU_MEMORY_MB", 64)], &[("BOOT_TEST_KEYS", "2\r")]));
    assert_eq!(m.binary, "qemu-system-i386");
    assert_eq!(m.success_code, 33);
    assert_eq!(m.input, b"2\r");
    assert_eq!(
        m.args,
        [
            "-machine", "pc", "-cpu", "max", "-m", "64M", "-device", "isa-debug-exit,iobase=0xf4,iosize=0x04", "-serial",
            "stdio", "-display", "none", "-no-reboot", "-d", "int,guest_errors", "-D", "b/qemu.log", "-smp", "1",
            "-kernel", "out/kernel.elf", "-append", "mode=normal",
        ]
    );
    assert!(m.net_port.is_none() && m.disk.is_none() && !m.serial_probe);
}

#[test]
fn firmware_boots_the_disk_and_not_the_kernel() {
    let r = res(&["ARCH_X86_64", "KINBOOT_EFI"], &[("QEMU_CPUS", 2)], &[("QEMU_CPU", "qemu64")]);
    assert!(needs_firmware(&r) && !needs_ports(&r));
    let m = machine(&r);
    assert_eq!(
        m.args,
        [
            "-machine", "q35", "-cpu", "qemu64", "-m", "128M", "-drive",
            "if=pflash,format=raw,unit=0,readonly=on,file=/fw/code.fd", "-drive",
            "if=pflash,format=raw,unit=1,file=/b/ovmf-vars.fd", "-drive", "format=raw,snapshot=on,file=out/kernel.elf",
            "-smp", "2", "-device", "isa-debug-exit,iobase=0xf4,iosize=0x04", "-serial", "stdio", "-display", "none",
            "-d", "guest_errors,cpu_reset", "-D", "b/qemu.log", "-no-reboot",
        ]
    );
    let counted = res(&["ARCH_X86_64", "KINBOOT_STUB", "BOOT_COUNTER_TEST"], &[], &[]);
    assert!(!machine(&counted).args.contains(&"-no-reboot".to_string()), "its resets are what it counts");
    let none = Host { firmware: Err("no firmware".to_string()), ..host() };
    assert_eq!(machine_for(&r, "k", "l", &none).unwrap_err(), "no firmware");
}

#[test]
fn a_disk_and_a_card_make_the_transport_modern_once() {
    let r = res(&["ARCH_AARCH64", "QEMU_BLOCK_TEST", "QEMU_NET_TEST"], &[], &[]);
    let m = machine(&r);
    let modern = m.args.iter().filter(|a| *a == "virtio-mmio.force-legacy=false").count();
    assert_eq!(modern, 1);
    assert_eq!(m.disk.as_deref(), Some("out/testdisk.run.img"));
    assert!(m.args.contains(&"file=out/testdisk.run.img,if=none,id=kt_disk,format=raw".to_string()));
    assert!(m.args.contains(
        &"user,id=kt_net,hostfwd=udp:127.0.0.1:1-:5555,hostfwd=tcp:127.0.0.1:7-:7777".to_string()
    ));
    assert_eq!(m.net_port.unwrap().udp, 1);
    assert_eq!(m.success_code, 0);
    let card = res(&["ARCH_AARCH64", "QEMU_NET_TEST", "QEMU_NET_PEER"], &[], &[]);
    let m = machine(&card);
    assert!(m.net_peer);
    assert!(m.args.contains(
        &"dgram,id=kt_net,local.type=inet,local.host=127.0.0.1,local.port=11,remote.type=inet,remote.host=127.0.0.1,remote.port=10"
            .to_string()
    ));
    assert_eq!(m.args.iter().filter(|a| *a == "virtio-mmio.force-legacy=false").count(), 1);
    let none = Host { ports: Err("no ports".to_string()), ..host() };
    assert_eq!(machine_for(&card, "k", "l", &none).unwrap_err(), "no ports");
}

#[test]
fn an_iommu_splits_the_interrupt_controller_and_fronts_the_disk() {
    let r = res(&["ARCH_X86_64", "IOMMU", "QEMU_BLOCK_TEST", "QEMU_PCI_TEST_DEVICE", "MODULES"], &[], &[]);
    let m = machine(&r);
    assert_eq!(m.args[1], "q35,kernel-irqchip=split");
    assert!(m.args.contains(&"virtio-blk-pci,disable-legacy=on,iommu_platform=on,drive=kt_disk".to_string()));
    assert!(m.args.contains(&"pcie-root-port,id=kt_bridge,chassis=1".to_string()));
    let n = m.args.len();
    assert_eq!(&m.args[n - 2..], ["-initrd", "out/modules.kmb"]);
    let bios = res(&["ARCH_X86_64", "KINBOOT_BIOS", "QEMU_BLOCK_TEST"], &[], &[]);
    let m = machine(&bios);
    assert!(m.args.contains(&"virtio-blk-pci,disable-legacy=on,vectors=0,drive=kt_disk".to_string()));
    let n = m.args.len();
    assert_eq!(&m.args[n - 4..], ["-drive", "format=raw,file=out/kernel.elf", "-boot", "reboot-timeout=0"]);
}

#[test]
fn the_small_machines_have_neither_disk_nor_card() {
    let r = res(&["ARCH_RISCV32", "RISCV32_NO_ATOMICS", "QEMU_NET_TEST", "QEMU_BLOCK_TEST"], &[], &[]);
    let m = machine(&r);
    assert_eq!(m.binary, "qemu-system-riscv32");
    assert_eq!(m.args[3], "rv32,a=false,zawrs=false,m=false,zmmul=false,c=false,zca=false,zcf=false,zcd=false");
    assert!(m.disk.is_none() && m.net_port.is_none());
    let m = machine(&res(&["ARCH_ARMV7M", "SERIAL_IRQ_TEST"], &[], &[]));
    assert_eq!(m.binary, "qemu-system-arm");
    assert!(m.serial_probe && !m.args.contains(&"-append".to_string()));
    let e = machine_for(&res(&[], &[], &[]), "k", "l", &host()).unwrap_err();
    assert_eq!(e, "no QEMU machine is defined for this configuration");
}

#[test]
fn firmware_is_looked_for_in_order() {
    let c = firmware_candidates(&Some("/mine.fd".to_string()), &None, &vec!["/opt/share/qemu".to_string()]);
    assert_eq!(c.len(), 6);
    assert_eq!(c[0], ("/mine.fd".to_string(), None));
    assert_eq!(c[1].0, "/opt/share/qemu/edk2-x86_64-code.fd");
    assert_eq!(pick_firmware(&c, &vec![false, false, true, true, false, false]), Ok(2));
    let e = pick_firmware(&c, &vec![false; 6]).unwrap_err();
    assert!(e.contains("tried:\n    /mine.fd\n    /opt/share/qemu/"), "{e}");
    assert!(firmware_candidates(&None, &Some("/v".to_string()), &vec![]).len() == 4, "a store alone names nothing");
}

#[test]
fn prompts_are_answered_once_and_across_chunks() {
    let mut m = machine(&res(&["ARCH_I686", "SERIAL_IRQ_TEST"], &[], &[("BOOT_TEST_KEYS", "1")]));
    assert_eq!(pending(&m).len(), 3);
    let w = Some(Watch { marker: b"beat", first_within: 5, every_within: 2 });
    let mut c = Console::new(&m, &w);
    assert_eq!(c.take(b"1-9 boots an entry, Ent").typed, b"");
    assert_eq!(c.take(b"er the marked one\nbe").typed, b"1");
    let n = c.take(b"at\nserial probe 1: waiting for input\n");
    assert!(n.beat);
    assert_eq!(n.typed, b"kintane-probe-1");
    assert_eq!(c.take(b"\nserial probe 1: waiting for input\n").typed, b"", "asked once, answered once");
    assert_eq!(c.waiting.len(), 1);
    assert_eq!(c.counter.count, 1);
    m.input.clear();
    m.serial_probe = false;
    assert!(pending(&m).is_empty());
}

#[test]
fn a_stuck_guest_is_found_and_a_live_one_is_not() {
    let w = || Some(Watch { marker: b"beat", first_within: 5, every_within: 2 });
    assert!(matches!(fate(&w(), 60, 0, 4999, 0), Fate::Runs));
    match fate(&w(), 60, 0, 5000, 0) {
        Fate::Hung(e) => assert_eq!(e, "no heartbeat within 5s of starting the guest"),
        _ => panic!("stuck"),
    }
    assert!(matches!(fate(&w(), 60, 3, 11_999, 10_000), Fate::Runs));
    match fate(&w(), 60, 3, 12_000, 10_000) {
        Fate::Hung(e) => assert_eq!(e, "no heartbeat for 2s after heartbeat 3; the guest is hung"),
        _ => panic!("stuck"),
    }
    assert!(matches!(fate(&None, 60, 0, 60_000, 0), Fate::TimedOut));
    assert!(matches!(fate(&None, 60, 0, 59_999, 0), Fate::Runs));
}

#[test]
fn a_guest_passes_by_its_exit_code_alone() {
    let run = |code, end| ended(code, end, b"passed".to_vec());
    assert!(run(33, End::Exited(Some(33))).passed);
    assert!(!run(33, End::Exited(Some(0))).passed);
    assert!(!run(0, End::Exited(None)).passed);
    let late = run(0, End::TimedOut);
    assert_eq!((late.passed, late.timed_out, late.code, late.hung), (false, true, None, None));
    let hung = run(0, End::Hung("why".to_string()));
    assert_eq!((hung.passed, hung.timed_out, hung.code, hung.hung), (false, false, None, Some("why".to_string())));
    assert_eq!(hung.console, b"passed");
}

#[test]
fn a_look_at_a_guest_finds_its_end() {
    let w = Some(Watch { marker: b"beat", first_within: 5, every_within: 2 });
    assert!(matches!(look(Some(Some(3)), &w, 1, 0, 9000, 0), Some(End::Exited(Some(3)))), "an exit comes first");
    assert!(matches!(look(Some(None), &None, 60, 0, 0, 0), Some(End::Exited(None))));
    assert!(matches!(look(None, &w, 5, 0, 5000, 0), Some(End::Hung(_))), "then the watch");
    assert!(matches!(look(None, &None, 5, 0, 5000, 0), Some(End::TimedOut)));
    assert!(look(None, &w, 60, 1, 3000, 2000).is_none());
}
