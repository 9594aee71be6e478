//! Which machine a configuration runs on, and what the machine is told, said of the symbols that are on.

use vstd::prelude::*;
use vstd::string::*;

use super::{Firmware, Host, NetPorts};
use crate::bios;
use crate::bootcfg;
use crate::build::keys;
use crate::bytes;
use crate::diskcheck;
use crate::kcfg::expr::Tri;
use crate::kcfg::resolve;
use crate::text;

verus! {

/// Whether a symbol is anything but off.
pub open spec fn is_on(o: resolve::Outcome, symbol: &str) -> bool {
    resolve::tri_in(o.names, o.vals, symbol@) != Tri::N
}

/// Each architecture has its own machine: the first of them that is on decides which emulator runs, and
/// which exit code means success. With none, there is no machine.
pub proof fn architectures_choose_the_machine(
    o: resolve::Outcome,
    image: Seq<char>,
    log: Seq<char>,
    ports: Option<NetPorts>,
    firmware: Result<Firmware, String>,
    bundle: bool,
)
    ensures
        ({
            let m = super::machine_on(o, image, log, ports, firmware, bundle);
            let boots = is_on(o, "KINBOOT_EFI") || is_on(o, "KINBOOT_STUB");
            let x64 = is_on(o, "ARCH_X86_64");
            let x32 = !x64 && is_on(o, "ARCH_I686");
            let a64 = !x64 && !is_on(o, "ARCH_I686") && is_on(o, "ARCH_AARCH64");
            let r32 = !x64 && !is_on(o, "ARCH_I686") && !is_on(o, "ARCH_AARCH64") && is_on(o, "ARCH_RISCV32");
            let arm = !x64 && !is_on(o, "ARCH_I686") && !is_on(o, "ARCH_AARCH64") && !is_on(o, "ARCH_RISCV32") && is_on(
                o,
                "ARCH_ARMV7M",
            );
            &&& m is Err <==> (x64 && boots && firmware is Err) || !(x64 || x32 || a64 || r32 || arm)
            &&& m is Ok ==> {
                &&& x64 ==> m->Ok_0.binary == "qemu-system-x86_64"@ && m->Ok_0.success_code == 33
                &&& x32 ==> m->Ok_0.binary == "qemu-system-i386"@ && m->Ok_0.success_code == 33
                &&& a64 ==> m->Ok_0.binary == "qemu-system-aarch64"@ && m->Ok_0.success_code == 0
                &&& r32 ==> m->Ok_0.binary == "qemu-system-riscv32"@ && m->Ok_0.success_code == 0
                &&& arm ==> m->Ok_0.binary == "qemu-system-arm"@ && m->Ok_0.success_code == 0
                &&& x64 || x32 || a64 ==> m->Ok_0.net_port == ports && m->Ok_0.net_peer == is_on(o, "QEMU_NET_PEER")
                &&& r32 || arm ==> m->Ok_0.net_port is None && m->Ok_0.disk is None
                &&& x64 || x32 || a64 ==> (m->Ok_0.disk is Some <==> is_on(o, "QEMU_BLOCK_TEST"))
                &&& m->Ok_0.disk is Some ==> m->Ok_0.disk == Some(diskcheck::run_path(image))
                &&& m->Ok_0.serial_probe == is_on(o, "SERIAL_IRQ_TEST")
            }
        }),
{
}

/// A machine with more processors than the kernel can use is refused, and one that needs ports on the
/// host gets them or the reason why there are none.
pub proof fn hosts_are_asked_for_what_is_needed(o: resolve::Outcome, image: Seq<char>, log: Seq<char>, host: Host)
    ensures
        ({
            let m = super::machine_of(o, image, log, host);
            let cpus = resolve::int_in(o, "QEMU_CPUS"@);
            let most = resolve::int_in(o, "NR_CPUS"@);
            let crowded = is_on(o, "SMP") && cpus > most;
            &&& crowded ==> m is Err
            &&& !crowded && is_on(o, "QEMU_NET_TEST") && host.ports is Err ==> m == Err::<super::Setup, Seq<char>>(
                host.ports->Err_0@,
            )
            &&& !crowded && is_on(o, "QEMU_NET_TEST") && host.ports is Ok && m is Ok && is_on(o, "ARCH_X86_64") ==> m->Ok_0.net_port
                == Some(host.ports->Ok_0)
            &&& !crowded && !is_on(o, "QEMU_NET_TEST") && m is Ok ==> m->Ok_0.net_port is None
        }),
{
}

/// A machine has the memory that the configuration gives it, or 128 megabytes where it gives none, and
/// the processor that it names, or every feature there is.
pub proof fn machines_have_what_is_configured(o: resolve::Outcome)
    ensures
        resolve::int_in(o, "QEMU_MEMORY_MB"@) > 0 ==> super::memory(o) == text::decimal(
            resolve::int_in(o, "QEMU_MEMORY_MB"@),
        ) + "M"@,
        resolve::int_in(o, "QEMU_MEMORY_MB"@) <= 0 ==> super::memory(o) == text::decimal(128) + "M"@,
        resolve::str_in(o, "QEMU_CPU"@).len() > 0 ==> super::processor(o) == resolve::str_in(o, "QEMU_CPU"@),
        resolve::str_in(o, "QEMU_CPU"@).len() == 0 ==> super::processor(o) == "max"@,
{
}

proof fn pairs_of_the_platform(o: resolve::Outcome, chipset: Seq<char>, image: Seq<char>, ports: Option<NetPorts>)
    ensures
        ({
            let a = super::platform_args(o, chipset, image, ports);
            let cpus = resolve::int_in(o, "QEMU_CPUS"@);
            &&& cpus > 1 ==> keys::has_pair(a, "-smp"@, text::decimal(cpus))
            &&& cpus <= 1 ==> keys::has_pair(a, "-smp"@, text::decimal(1))
            &&& is_on(o, "IOMMU") ==> keys::has_pair(a, "-device"@, "intel-iommu,intremap=on,eim=on"@)
            &&& is_on(o, "QEMU_BLOCK_TEST") ==> keys::has_pair(
                a,
                "-drive"@,
                "file="@ + diskcheck::run_path(image) + ",if=none,id=kt_disk,format=raw"@,
            )
            &&& ports is Some && is_on(o, "QEMU_NET_PEER") ==> keys::has_pair(
                a,
                "-netdev"@,
                super::peer_netdev(ports->0),
            )
            &&& ports is Some && !is_on(o, "QEMU_NET_PEER") ==> keys::has_pair(
                a,
                "-netdev"@,
                super::user_netdev(ports->0),
            )
        }),
{
    let cpus = resolve::int_in(o, "QEMU_CPUS"@);
    let shown = text::decimal(
        if cpus > 1 {
            cpus
        } else {
            1
        },
    );
    let smp = seq!["-smp"@, shown];
    let iommu = if super::on(o, "IOMMU"@) {
        seq!["-device"@, "intel-iommu,intremap=on,eim=on"@]
    } else {
        seq![]
    };
    let device = if super::on(o, "ARCH_X86_64"@) && super::on(o, "KINBOOT_BIOS"@) {
        "virtio-blk-pci,disable-legacy=on,vectors=0"@
    } else {
        "virtio-blk-pci,disable-legacy=on"@
    };
    let net = if chipset == "q35"@ {
        "virtio-net-pci,disable-legacy=on,romfile="@
    } else {
        "virtio-net-pci,disable-legacy=on,romfile=,addr=0x1e"@
    };
    let disk = super::disk_args(o, image, device);
    let card = super::card_args(o, net, ports);
    let all = super::platform_args(o, chipset, image, ports);
    let none = Seq::<Seq<char>>::empty();
    let rest = all.subrange((smp + iommu + disk + card).len() as int, all.len() as int);
    assert(all =~= smp + iommu + disk + card + rest + none);
    keys::a_pair_stands(smp, 0);
    keys::pairs_of_the_parts(smp, iommu, disk, card, rest, none, "-smp"@, shown);
    if super::on(o, "IOMMU"@) {
        keys::a_pair_stands(iommu, 0);
        keys::pairs_of_the_parts(smp, iommu, disk, card, rest, none, iommu[0], iommu[1]);
    }
    if super::on(o, "QEMU_BLOCK_TEST"@) {
        keys::a_pair_stands(disk, 0);
        keys::pairs_of_the_parts(smp, iommu, disk, card, rest, none, disk[0], disk[1]);
    }
    if ports is Some {
        keys::a_pair_stands(card, 0);
        keys::pairs_of_the_parts(smp, iommu, disk, card, rest, none, card[0], card[1]);
    }
}

/// What an x86 machine without firmware is told: its memory, its processors, its disk and its network as
/// the configuration has them, and either the disk that it boots from or the kernel and its command line.
pub proof fn x86_machines_are_told_the_configuration(
    o: resolve::Outcome,
    image: Seq<char>,
    log: Seq<char>,
    ports: Option<NetPorts>,
    bundle: bool,
    chipset: Seq<char>,
    machine: Seq<char>,
)
    ensures
        ({
            let a = super::x86_args(o, image, log, ports, bundle, chipset, machine);
            let cpus = resolve::int_in(o, "QEMU_CPUS"@);
            &&& keys::has_pair(a, "-machine"@, machine)
            &&& keys::has_pair(a, "-cpu"@, super::processor(o))
            &&& keys::has_pair(a, "-m"@, super::memory(o))
            &&& keys::has_pair(a, "-serial"@, "stdio"@)
            &&& keys::has_pair(a, "-D"@, log)
            &&& keys::has_pair(a, "-device"@, "isa-debug-exit,iobase=0xf4,iosize=0x04"@)
            &&& cpus > 1 ==> keys::has_pair(a, "-smp"@, text::decimal(cpus))
            &&& is_on(o, "QEMU_BLOCK_TEST") ==> keys::has_pair(
                a,
                "-drive"@,
                "file="@ + diskcheck::run_path(image) + ",if=none,id=kt_disk,format=raw"@,
            )
            &&& resolve::tri_in(o.names, o.vals, bios::SYMBOL@) != Tri::N ==> keys::has_pair(
                a,
                "-drive"@,
                "format=raw,file="@ + image,
            )
            &&& resolve::tri_in(o.names, o.vals, bios::SYMBOL@) == Tri::N ==> keys::has_pair(a, "-kernel"@, image)
                && keys::has_pair(a, "-append"@, bootcfg::command_line(o))
        }),
{
    let head = super::machine_args(machine, super::processor(o), super::memory(o));
    let exit = super::debug_exit();
    let console = super::console_args();
    let logs = super::log_args(log);
    let platform = super::platform_args(o, chipset, image, ports);
    let media = super::media_args(o, image, bundle);
    keys::a_pair_stands(head, 0);
    keys::pairs_of_the_parts(head, exit, console, logs, platform, media, head[0], head[1]);
    keys::a_pair_stands(head, 2);
    keys::pairs_of_the_parts(head, exit, console, logs, platform, media, head[2], head[3]);
    keys::a_pair_stands(head, 4);
    keys::pairs_of_the_parts(head, exit, console, logs, platform, media, head[4], head[5]);
    keys::a_pair_stands(exit, 0);
    keys::pairs_of_the_parts(head, exit, console, logs, platform, media, exit[0], exit[1]);
    keys::a_pair_stands(console, 0);
    keys::pairs_of_the_parts(head, exit, console, logs, platform, media, console[0], console[1]);
    keys::a_pair_stands(logs, 3);
    keys::pairs_of_the_parts(head, exit, console, logs, platform, media, logs[3], logs[4]);
    pairs_of_the_platform(o, chipset, image, ports);
    let cpus = resolve::int_in(o, "QEMU_CPUS"@);
    if cpus > 1 {
        keys::pairs_of_the_parts(head, exit, console, logs, platform, media, "-smp"@, text::decimal(cpus));
    }
    if is_on(o, "QEMU_BLOCK_TEST") {
        keys::pairs_of_the_parts(
            head,
            exit,
            console,
            logs,
            platform,
            media,
            "-drive"@,
            "file="@ + diskcheck::run_path(image) + ",if=none,id=kt_disk,format=raw"@,
        );
    }
    keys::a_pair_stands(media, 0);
    keys::pairs_of_the_parts(head, exit, console, logs, platform, media, media[0], media[1]);
    keys::a_pair_stands(media, 2);
    keys::pairs_of_the_parts(head, exit, console, logs, platform, media, media[2], media[3]);
}

/// The firmware that is used is the first of the candidates that is there.
pub proof fn the_first_firmware_is_used(held: Seq<bool>, k: int, i: int)
    requires
        0 <= i <= k < held.len(),
        held[k],
        forall|j: int| i <= j < k ==> !#[trigger] held[j],
    ensures
        super::first_held(held, i) == Some(k),
    decreases k - i,
{
    if i < k {
        assert(!held[i]);
        the_first_firmware_is_used(held, k, i + 1);
    }
}

/// A firmware that is named comes before every other candidate, and what comes with the emulator before
/// what the system has.
pub proof fn named_firmware_comes_first(code: Seq<char>, vars: Option<Seq<char>>, shares: Seq<Seq<char>>, i: int)
    ensures
        super::firmware_places(Some(code), vars, shares)[0] == (code, vars),
        0 <= i < shares.len() ==> super::firmware_places(Some(code), vars, shares)[i + 1]
            == super::firmware_places(None, vars, shares)[i],
        super::firmware_places(None, vars, shares).len() == shares.len() + 4,
{
}

proof fn pairs_of_nine(
    a: Seq<Seq<char>>,
    b: Seq<Seq<char>>,
    c: Seq<Seq<char>>,
    d: Seq<Seq<char>>,
    e: Seq<Seq<char>>,
    f: Seq<Seq<char>>,
    g: Seq<Seq<char>>,
    h: Seq<Seq<char>>,
    i: Seq<Seq<char>>,
    x: Seq<char>,
    y: Seq<char>,
)
    requires
        keys::has_pair(a, x, y) || keys::has_pair(b, x, y) || keys::has_pair(c, x, y) || keys::has_pair(d, x, y)
            || keys::has_pair(e, x, y) || keys::has_pair(f, x, y) || keys::has_pair(g, x, y) || keys::has_pair(h, x, y)
            || keys::has_pair(i, x, y),
    ensures
        keys::has_pair(a + b + c + d + e + f + g + h + i, x, y),
{
    let none = Seq::<Seq<char>>::empty();
    let front = a + b + c + d;
    let back = f + g + h + i;
    if keys::has_pair(a, x, y) || keys::has_pair(b, x, y) || keys::has_pair(c, x, y) || keys::has_pair(d, x, y) {
        keys::pairs_of_the_parts(a, b, c, d, none, none, x, y);
        assert(a + b + c + d + none + none =~= front);
        keys::pairs_stay(none, front, e + back, x, y);
        assert(none + front + (e + back) =~= front + e + back);
    } else if keys::has_pair(e, x, y) {
        keys::pairs_stay(front, e, back, x, y);
    } else {
        keys::pairs_of_the_parts(f, g, h, i, none, none, x, y);
        assert(f + g + h + i + none + none =~= back);
        keys::pairs_stay(front + e, back, none, x, y);
        assert(front + e + back + none =~= front + e + back);
    }
    assert(a + b + c + d + e + f + g + h + i =~= front + e + back);
}

/// A machine has a disk exactly where the configuration tests one: a drive on the image of the run, and the
/// device on that drive, which goes through the protection of memory where that is on and the device is on
/// the bus.
pub proof fn disks_are_attached_as_configured(o: resolve::Outcome, image: Seq<char>, device: Seq<char>)
    ensures
        ({
            let a = super::disk_args(o, image, device);
            let guarded = is_on(o, "IOMMU") && bytes::begins(device, "virtio-blk-pci"@);
            &&& !is_on(o, "QEMU_BLOCK_TEST") ==> a.len() == 0
            &&& is_on(o, "QEMU_BLOCK_TEST") ==> {
                &&& keys::has_pair(
                    a,
                    "-drive"@,
                    "file="@ + diskcheck::run_path(image) + ",if=none,id=kt_disk,format=raw"@,
                )
                &&& guarded ==> keys::has_pair(a, "-device"@, device + ",iommu_platform=on"@ + ",drive=kt_disk"@)
                &&& !guarded ==> keys::has_pair(a, "-device"@, device + ",drive=kt_disk"@)
                &&& !guarded && device == "virtio-blk-device"@ ==> keys::has_pair(
                    a,
                    "-global"@,
                    "virtio-mmio.force-legacy=false"@,
                )
            }
        }),
{
    let a = super::disk_args(o, image, device);
    if super::on(o, "QEMU_BLOCK_TEST"@) {
        keys::a_pair_stands(a, 0);
        keys::a_pair_stands(a, 2);
        if super::disk_device(o, device) == "virtio-blk-device"@ {
            keys::a_pair_stands(a, 4);
        }
    }
}

/// A machine has a network card exactly where it was given ports: the card is on the one network, which
/// leads to the peer or to the host as the configuration says.
pub proof fn cards_are_attached_as_configured(o: resolve::Outcome, device: Seq<char>, p: NetPorts)
    ensures
        super::card_args(o, device, None).len() == 0,
        keys::has_pair(super::card_args(o, device, Some(p)), "-device"@, device + ",netdev=kt_net"@),
        is_on(o, "QEMU_NET_PEER") ==> keys::has_pair(
            super::card_args(o, device, Some(p)),
            "-netdev"@,
            "dgram,id=kt_net,local.type=inet,local.host=127.0.0.1,local.port="@ + text::decimal(p.peer_remote as int)
                + ",remote.type=inet,remote.host=127.0.0.1,remote.port="@ + text::decimal(p.peer_local as int),
        ),
        !is_on(o, "QEMU_NET_PEER") ==> keys::has_pair(
            super::card_args(o, device, Some(p)),
            "-netdev"@,
            "user,id=kt_net,hostfwd=udp:127.0.0.1:"@ + text::decimal(p.udp as int) + "-:5555,hostfwd=tcp:127.0.0.1:"@
                + text::decimal(p.inbound as int) + "-:7777"@,
        ),
        device == "virtio-net-device"@ && !is_on(o, "QEMU_BLOCK_TEST") ==> keys::has_pair(
            super::card_args(o, device, Some(p)),
            "-global"@,
            "virtio-mmio.force-legacy=false"@,
        ),
{
    let a = super::card_args(o, device, Some(p));
    let network = if super::on(o, "QEMU_NET_PEER"@) {
        seq!["-netdev"@, super::peer_netdev(p)]
    } else {
        super::user_args(p)
    };
    let n = network.len() as int;
    assert(a[n] == "-device"@);
    assert(a[n + 1] == device + ",netdev=kt_net"@);
    keys::a_pair_stands(a, n);
    keys::a_pair_stands(a, 0);
    if device == "virtio-net-device"@ && !is_on(o, "QEMU_BLOCK_TEST") {
        assert(a[n + 2] == "-global"@);
        assert(a[n + 3] == "virtio-mmio.force-legacy=false"@);
        keys::a_pair_stands(a, n + 2);
    }
}

/// Traffic with the host is led through four connections, two each way, one out and one back in.
pub proof fn traffic_is_led_past_the_host(p: NetPorts)
    ensures
        ({
            let a = super::user_args(p);
            let led = |id: Seq<char>, port: u16|
                keys::has_pair(a, "-chardev"@, "socket,id="@ + id + ",host=127.0.0.1,port="@ + text::decimal(port as int));
            &&& led("kt_relay_out"@, p.relay_out)
            &&& led("kt_relay_in"@, p.relay_in)
            &&& led("kt_down_out"@, p.down_out)
            &&& led("kt_down_in"@, p.down_in)
            &&& keys::has_pair(
                a,
                "-object"@,
                "filter-redirector,id=kt_net_in,netdev=kt_net,queue=rx,indev=kt_relay_in"@,
            )
            &&& keys::has_pair(
                a,
                "-object"@,
                "filter-redirector,id=kt_net_out,netdev=kt_net,queue=rx,outdev=kt_relay_out"@,
            )
            &&& keys::has_pair(
                a,
                "-object"@,
                "filter-redirector,id=kt_net_down_out,netdev=kt_net,queue=tx,outdev=kt_down_out"@,
            )
            &&& keys::has_pair(
                a,
                "-object"@,
                "filter-redirector,id=kt_net_down_in,netdev=kt_net,queue=tx,indev=kt_down_in"@,
            )
        }),
{
    let a = super::user_args(p);
    keys::a_pair_stands(a, 2);
    keys::a_pair_stands(a, 4);
    keys::a_pair_stands(a, 6);
    keys::a_pair_stands(a, 8);
    keys::a_pair_stands(a, 10);
    keys::a_pair_stands(a, 12);
    keys::a_pair_stands(a, 14);
    keys::a_pair_stands(a, 16);
}

/// What an x86 platform has on its bus: the protection of memory and the device under test where they are
/// configured, and the card where the chipset has room for it.
pub proof fn x86_platforms_have_what_is_configured(
    o: resolve::Outcome,
    chipset: Seq<char>,
    image: Seq<char>,
    p: NetPorts,
)
    ensures
        ({
            let a = super::platform_args(o, chipset, image, Some(p));
            &&& is_on(o, "IOMMU") ==> keys::has_pair(a, "-device"@, "intel-iommu,intremap=on,eim=on"@)
            &&& chipset == "q35"@ ==> keys::has_pair(
                a,
                "-device"@,
                "virtio-net-pci,disable-legacy=on,romfile="@ + ",netdev=kt_net"@,
            )
            &&& chipset != "q35"@ ==> keys::has_pair(
                a,
                "-device"@,
                "virtio-net-pci,disable-legacy=on,romfile=,addr=0x1e"@ + ",netdev=kt_net"@,
            )
            &&& is_on(o, "QEMU_PCI_TEST_DEVICE") && chipset == "q35"@ ==> keys::has_pair(
                a,
                "-device"@,
                "pci-testdev,bus=kt_bridge"@,
            ) && keys::has_pair(a, "-device"@, "pcie-root-port,id=kt_bridge,chassis=1"@)
            &&& is_on(o, "QEMU_PCI_TEST_DEVICE") && chipset != "q35"@ ==> keys::has_pair(
                a,
                "-device"@,
                "pci-testdev,bus=kt_bridge,addr=3"@,
            ) && keys::has_pair(a, "-device"@, "pci-bridge,id=kt_bridge,chassis_nr=1"@)
            &&& is_on(o, "QEMU_BLOCK_TEST") && !is_on(o, "IOMMU") && is_on(o, "ARCH_X86_64") && is_on(o, "KINBOOT_BIOS")
                ==> keys::has_pair(
                a,
                "-device"@,
                "virtio-blk-pci,disable-legacy=on,vectors=0"@ + ",drive=kt_disk"@,
            )
            &&& is_on(o, "QEMU_BLOCK_TEST") && !is_on(o, "IOMMU") && !(is_on(o, "ARCH_X86_64") && is_on(
                o,
                "KINBOOT_BIOS",
            )) ==> keys::has_pair(a, "-device"@, "virtio-blk-pci,disable-legacy=on"@ + ",drive=kt_disk"@)
        }),
{
    pairs_of_the_platform(o, chipset, image, Some(p));
    let cpus = resolve::int_in(o, "QEMU_CPUS"@);
    let smp = seq![
        "-smp"@,
        text::decimal(
            if cpus > 1 {
                cpus
            } else {
                1
            },
        ),
    ];
    let iommu = if super::on(o, "IOMMU"@) {
        seq!["-device"@, "intel-iommu,intremap=on,eim=on"@]
    } else {
        seq![]
    };
    let device = if super::on(o, "ARCH_X86_64"@) && super::on(o, "KINBOOT_BIOS"@) {
        "virtio-blk-pci,disable-legacy=on,vectors=0"@
    } else {
        "virtio-blk-pci,disable-legacy=on"@
    };
    let net = if chipset == "q35"@ {
        "virtio-net-pci,disable-legacy=on,romfile="@
    } else {
        "virtio-net-pci,disable-legacy=on,romfile=,addr=0x1e"@
    };
    let disk = super::disk_args(o, image, device);
    let card = super::card_args(o, net, Some(p));
    let all = super::platform_args(o, chipset, image, Some(p));
    let none = Seq::<Seq<char>>::empty();
    let front = smp + iommu + disk + card;
    let tests = all.subrange(front.len() as int, all.len() as int);
    assert(all =~= smp + iommu + disk + card + tests + none);
    cards_are_attached_as_configured(o, net, p);
    keys::pairs_of_the_parts(smp, iommu, disk, card, tests, none, "-device"@, net + ",netdev=kt_net"@);
    disks_are_attached_as_configured(o, image, device);
    if is_on(o, "QEMU_BLOCK_TEST") && !is_on(o, "IOMMU") {
        keys::pairs_of_the_parts(smp, iommu, disk, card, tests, none, "-device"@, device + ",drive=kt_disk"@);
    }
    if is_on(o, "QEMU_PCI_TEST_DEVICE") {
        assert(tests.len() == 4);
        keys::a_pair_stands(tests, 0);
        keys::a_pair_stands(tests, 2);
        keys::pairs_of_the_parts(smp, iommu, disk, card, tests, none, tests[0], tests[1]);
        keys::pairs_of_the_parts(smp, iommu, disk, card, tests, none, tests[2], tests[3]);
    }
}

/// What a machine that boots from firmware is told: the firmware and its variables, the image it boots from,
/// which a run does not change, and to stop where it would start over, but for the test of the boot
/// counter.
pub proof fn machines_with_firmware_are_told_the_configuration(
    o: resolve::Outcome,
    image: Seq<char>,
    log: Seq<char>,
    ports: Option<NetPorts>,
    code: Seq<char>,
    vars: Option<Seq<char>>,
)
    ensures
        ({
            let a = super::firmware_args(o, image, log, ports, code, vars);
            &&& keys::has_pair(a, "-machine"@, "q35"@)
            &&& keys::has_pair(a, "-cpu"@, super::processor(o))
            &&& keys::has_pair(a, "-m"@, super::memory(o))
            &&& keys::has_pair(a, "-drive"@, "if=pflash,format=raw,unit=0,readonly=on,file="@ + code)
            &&& vars is Some ==> keys::has_pair(a, "-drive"@, "if=pflash,format=raw,unit=1,file="@ + vars->0)
            &&& keys::has_pair(a, "-drive"@, "format=raw,snapshot=on,file="@ + image)
            &&& keys::has_pair(a, "-device"@, "isa-debug-exit,iobase=0xf4,iosize=0x04"@)
            &&& keys::has_pair(a, "-D"@, log)
            &&& !is_on(o, "BOOT_COUNTER_TEST") ==> a.last() == "-no-reboot"@
            &&& is_on(o, "BOOT_COUNTER_TEST") ==> a.last() == log
        }),
{
    let b = super::machine_args("q35"@, super::processor(o), super::memory(o));
    let c = seq!["-drive"@, "if=pflash,format=raw,unit=0,readonly=on,file="@ + code];
    let d = match vars {
        Some(v) => seq!["-drive"@, "if=pflash,format=raw,unit=1,file="@ + v],
        None => seq![],
    };
    let e = seq!["-drive"@, "format=raw,snapshot=on,file="@ + image];
    let f = super::platform_args(o, "q35"@, image, ports);
    let g = super::debug_exit();
    let h = super::console_args();
    let i = seq!["-d"@, "guest_errors,cpu_reset"@, "-D"@, log];
    let j = if super::on(o, "BOOT_COUNTER_TEST"@) {
        seq![]
    } else {
        seq!["-no-reboot"@]
    };
    assert(super::firmware_args(o, image, log, ports, code, vars) == b + c + d + e + f + g + h + i + j);
    keys::a_pair_stands(b, 0);
    keys::a_pair_stands(b, 2);
    keys::a_pair_stands(b, 4);
    keys::a_pair_stands(c, 0);
    keys::a_pair_stands(e, 0);
    keys::a_pair_stands(g, 0);
    keys::a_pair_stands(i, 2);
    pairs_of_nine(b, c, d, e, f, g, h, i, j, b[0], b[1]);
    pairs_of_nine(b, c, d, e, f, g, h, i, j, b[2], b[3]);
    pairs_of_nine(b, c, d, e, f, g, h, i, j, b[4], b[5]);
    pairs_of_nine(b, c, d, e, f, g, h, i, j, c[0], c[1]);
    pairs_of_nine(b, c, d, e, f, g, h, i, j, e[0], e[1]);
    pairs_of_nine(b, c, d, e, f, g, h, i, j, g[0], g[1]);
    pairs_of_nine(b, c, d, e, f, g, h, i, j, i[2], i[3]);
    if vars is Some {
        keys::a_pair_stands(d, 0);
        pairs_of_nine(b, c, d, e, f, g, h, i, j, d[0], d[1]);
    }
    the_end_of_two(b + c + d + e + f + g + h, i, j);
}

proof fn the_end_of_two(a: Seq<Seq<char>>, b: Seq<Seq<char>>, c: Seq<Seq<char>>)
    requires
        b.len() > 0,
    ensures
        c.len() > 0 ==> (a + b + c).last() == c.last(),
        c.len() == 0 ==> (a + b + c).last() == b.last(),
{
}

/// What the other machines are told: their memory and their processors as the configuration has them, the
/// kernel, and its command line.
pub proof fn other_machines_are_told_the_configuration(
    o: resolve::Outcome,
    image: Seq<char>,
    log: Seq<char>,
    ports: Option<NetPorts>,
)
    ensures
        ({
            let a = super::aarch64_args(o, image, log, ports);
            let r = super::riscv32_args(o, image, log);
            let cpus = resolve::int_in(o, "QEMU_CPUS"@);
            let slim = "rv32,a=false,zawrs=false,m=false,zmmul=false,c=false,zca=false,zcf=false,zcd=false"@;
            &&& keys::has_pair(a, "-machine"@, "virt,gic-version=3"@)
            &&& keys::has_pair(a, "-cpu"@, super::processor(o))
            &&& keys::has_pair(a, "-m"@, super::memory(o))
            &&& cpus > 1 ==> keys::has_pair(a, "-smp"@, text::decimal(cpus))
            &&& keys::has_pair(a, "-kernel"@, image)
            &&& keys::has_pair(a, "-append"@, bootcfg::command_line(o))
            &&& keys::has_pair(a, "-semihosting-config"@, "enable=on,target=native"@)
            &&& keys::has_pair(a, "-serial"@, "stdio"@)
            &&& keys::has_pair(a, "-D"@, log)
            &&& is_on(o, "QEMU_BLOCK_TEST") ==> keys::has_pair(
                a,
                "-drive"@,
                "file="@ + diskcheck::run_path(image) + ",if=none,id=kt_disk,format=raw"@,
            )
            &&& ports is Some ==> keys::has_pair(a, "-device"@, "virtio-net-device"@ + ",netdev=kt_net"@)
            &&& keys::has_pair(r, "-machine"@, "virt"@)
            &&& is_on(o, "RISCV32_NO_ATOMICS") ==> keys::has_pair(r, "-cpu"@, slim)
            &&& keys::has_pair(r, "-bios"@, "none"@)
            &&& keys::has_pair(r, "-m"@, super::memory(o))
            &&& keys::has_pair(r, "-kernel"@, image)
            &&& keys::has_pair(r, "-append"@, bootcfg::command_line(o))
            &&& keys::has_pair(r, "-serial"@, "stdio"@)
            &&& keys::has_pair(r, "-D"@, log)
        }),
{
    arm_machines_are_told(o, image, log, ports);
    riscv_machines_are_told(o, image, log);
}

proof fn arm_machines_are_told(o: resolve::Outcome, image: Seq<char>, log: Seq<char>, ports: Option<NetPorts>)
    ensures
        ({
            let a = super::aarch64_args(o, image, log, ports);
            let cpus = resolve::int_in(o, "QEMU_CPUS"@);
            &&& keys::has_pair(a, "-machine"@, "virt,gic-version=3"@)
            &&& keys::has_pair(a, "-cpu"@, super::processor(o))
            &&& keys::has_pair(a, "-m"@, super::memory(o))
            &&& cpus > 1 ==> keys::has_pair(a, "-smp"@, text::decimal(cpus))
            &&& keys::has_pair(a, "-kernel"@, image)
            &&& keys::has_pair(a, "-append"@, bootcfg::command_line(o))
            &&& keys::has_pair(a, "-semihosting-config"@, "enable=on,target=native"@)
            &&& keys::has_pair(a, "-serial"@, "stdio"@)
            &&& keys::has_pair(a, "-D"@, log)
            &&& is_on(o, "QEMU_BLOCK_TEST") ==> keys::has_pair(
                a,
                "-drive"@,
                "file="@ + diskcheck::run_path(image) + ",if=none,id=kt_disk,format=raw"@,
            )
            &&& ports is Some ==> keys::has_pair(a, "-device"@, "virtio-net-device"@ + ",netdev=kt_net"@)
        }),
{
    let none = Seq::<Seq<char>>::empty();
    let cpus = resolve::int_in(o, "QEMU_CPUS"@);
    let b = super::machine_args("virt,gic-version=3"@, super::processor(o), super::memory(o));
    let c = if cpus > 1 {
        seq!["-smp"@, text::decimal(cpus)]
    } else {
        seq![]
    };
    let d = super::disk_args(o, image, "virtio-blk-device"@);
    let e = super::card_args(o, "virtio-net-device"@, ports);
    let f = seq![
        "-kernel"@,
        image,
        "-append"@,
        bootcfg::command_line(o),
        "-semihosting-config"@,
        "enable=on,target=native"@,
    ];
    let g = super::console_args();
    let h = super::log_args(log);
    nothing_more(b + c + d + e + f + g + h);
    assert(super::aarch64_args(o, image, log, ports) == b + c + d + e + f + g + h + none + none);
    keys::a_pair_stands(b, 0);
    keys::a_pair_stands(b, 2);
    keys::a_pair_stands(b, 4);
    keys::a_pair_stands(f, 0);
    keys::a_pair_stands(f, 2);
    keys::a_pair_stands(f, 4);
    keys::a_pair_stands(g, 0);
    keys::a_pair_stands(h, 3);
    pairs_of_nine(b, c, d, e, f, g, h, none, none, b[0], b[1]);
    pairs_of_nine(b, c, d, e, f, g, h, none, none, b[2], b[3]);
    pairs_of_nine(b, c, d, e, f, g, h, none, none, b[4], b[5]);
    pairs_of_nine(b, c, d, e, f, g, h, none, none, f[0], f[1]);
    pairs_of_nine(b, c, d, e, f, g, h, none, none, f[2], f[3]);
    pairs_of_nine(b, c, d, e, f, g, h, none, none, f[4], f[5]);
    pairs_of_nine(b, c, d, e, f, g, h, none, none, g[0], g[1]);
    pairs_of_nine(b, c, d, e, f, g, h, none, none, h[3], h[4]);
    if cpus > 1 {
        keys::a_pair_stands(c, 0);
        pairs_of_nine(b, c, d, e, f, g, h, none, none, c[0], c[1]);
    }
    if is_on(o, "QEMU_BLOCK_TEST") {
        keys::a_pair_stands(d, 0);
        pairs_of_nine(b, c, d, e, f, g, h, none, none, d[0], d[1]);
    }
    if ports is Some {
        cards_are_attached_as_configured(o, "virtio-net-device"@, ports->0);
        pairs_of_nine(b, c, d, e, f, g, h, none, none, "-device"@, "virtio-net-device"@ + ",netdev=kt_net"@);
    }
}

proof fn nothing_more(a: Seq<Seq<char>>)
    ensures
        a + Seq::<Seq<char>>::empty() + Seq::<Seq<char>>::empty() == a,
{
    assert(a + Seq::<Seq<char>>::empty() + Seq::<Seq<char>>::empty() =~= a);
}

proof fn riscv_machines_are_told(o: resolve::Outcome, image: Seq<char>, log: Seq<char>)
    ensures
        ({
            let r = super::riscv32_args(o, image, log);
            let slim = "rv32,a=false,zawrs=false,m=false,zmmul=false,c=false,zca=false,zcf=false,zcd=false"@;
            &&& keys::has_pair(r, "-machine"@, "virt"@)
            &&& is_on(o, "RISCV32_NO_ATOMICS") ==> keys::has_pair(r, "-cpu"@, slim)
            &&& keys::has_pair(r, "-bios"@, "none"@)
            &&& keys::has_pair(r, "-m"@, super::memory(o))
            &&& keys::has_pair(r, "-kernel"@, image)
            &&& keys::has_pair(r, "-append"@, bootcfg::command_line(o))
            &&& keys::has_pair(r, "-serial"@, "stdio"@)
            &&& keys::has_pair(r, "-D"@, log)
        }),
{
    let none = Seq::<Seq<char>>::empty();
    let b = seq!["-machine"@, "virt"@];
    let c = if super::on(o, "RISCV32_NO_ATOMICS"@) {
        seq![
            "-cpu"@,
            "rv32,a=false,zawrs=false,m=false,zmmul=false,c=false,zca=false,zcf=false,zcd=false"@,
        ]
    } else {
        seq![]
    };
    let d = seq!["-bios"@, "none"@, "-m"@, super::memory(o), "-kernel"@, image, "-append"@, bootcfg::command_line(o)];
    let e = super::console_args();
    let f = super::log_args(log);
    assert(super::riscv32_args(o, image, log) == b + c + d + e + f);
    assert(b + c + d + e + f + none =~= b + c + d + e + f);
    keys::a_pair_stands(b, 0);
    keys::a_pair_stands(d, 0);
    keys::a_pair_stands(d, 2);
    keys::a_pair_stands(d, 4);
    keys::a_pair_stands(d, 6);
    keys::a_pair_stands(e, 0);
    keys::a_pair_stands(f, 3);
    keys::pairs_of_the_parts(b, c, d, e, f, none, b[0], b[1]);
    keys::pairs_of_the_parts(b, c, d, e, f, none, d[0], d[1]);
    keys::pairs_of_the_parts(b, c, d, e, f, none, d[2], d[3]);
    keys::pairs_of_the_parts(b, c, d, e, f, none, d[4], d[5]);
    keys::pairs_of_the_parts(b, c, d, e, f, none, d[6], d[7]);
    keys::pairs_of_the_parts(b, c, d, e, f, none, e[0], e[1]);
    keys::pairs_of_the_parts(b, c, d, e, f, none, f[3], f[4]);
    if super::on(o, "RISCV32_NO_ATOMICS"@) {
        keys::a_pair_stands(c, 0);
        keys::pairs_of_the_parts(b, c, d, e, f, none, c[0], c[1]);
    }
}

/// A kernel that loads modules is handed their bundle, from beside the image, where there is one.
pub proof fn bundles_are_handed_over(o: resolve::Outcome, image: Seq<char>, bundle: bool)
    requires
        !is_on(o, "KINBOOT_BIOS"),
    ensures
        keys::has_pair(
            super::media_args(o, image, bundle),
            "-initrd"@,
            crate::graph::neighbour(image, "modules.kmb"@),
        ) || !(is_on(o, "MODULES") && bundle),
        !(is_on(o, "MODULES") && bundle) ==> super::media_args(o, image, bundle).len() == 4,
{
    let a = super::media_args(o, image, bundle);
    if is_on(o, "MODULES") && bundle {
        keys::a_pair_stands(a, 4);
    }
}

} // verus!
