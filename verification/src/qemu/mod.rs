//! Running a built image under QEMU.
//!
//! One canonical invocation for each target, derived from the configuration rather than typed by
//! hand. What the host has to be asked for (free ports, firmware, whether a module bundle stands
//! beside the image) is a parameter, [`Host`].

use vstd::prelude::*;
use vstd::string::*;

use crate::bios;
use crate::bootcfg;
use crate::bytes;
use crate::diskcheck;
use crate::graph;
use crate::kcfg::resolve;
use crate::kcfg::resolve::Resolution;
use crate::modules;
use crate::qemu_armv7m;
use crate::text;

pub mod machines;
pub mod services;
pub mod watch;
pub mod wire;

verus! {

/// The symbol that attaches the test disk.
pub const DISK_SYMBOL: &'static str = "QEMU_BLOCK_TEST";

/// The exit code of an x86 guest that signalled success: `isa-debug-exit` reports the value written
/// to it, doubled, plus one, so that a guest can never produce 0.
pub const X86_SUCCESS: i32 = 33;

/// The loopback ports that a run with a network card is served on.
#[derive(Clone, Copy, Debug)]
pub struct NetPorts {
    /// The UDP port that QEMU forwards to the guest.
    pub udp: u16,
    /// The TCP service's port, which the guest reaches at the gateway's address.
    pub tcp: u16,
    /// The two ports that QEMU connects to with what the guest sends.
    pub relay_out: u16,
    pub relay_in: u16,
    /// The two ports that QEMU connects to with what the network sends the guest.
    pub down_out: u16,
    pub down_in: u16,
    /// The TCP port that QEMU forwards to the guest's listener.
    pub inbound: u16,
    /// The datagram service's port, which the guest reaches at the gateway's address.
    pub udp_service: u16,
    /// A port that nothing ever binds.
    pub quiet: u16,
    /// With `QEMU_NET_PEER`, the socket pair that carries raw Ethernet: the host binds `peer_local`
    /// and QEMU binds `peer_remote`, and each sends to the other's.
    pub peer_local: u16,
    pub peer_remote: u16,
}

/// UEFI firmware for an x86_64 guest: the code image, and a fresh copy of a variable store if the
/// firmware has a separate one.
#[derive(Debug)]
pub struct Firmware {
    pub code: String,
    pub vars: Option<String>,
}

/// What the host was asked for.
pub struct Host {
    /// Free loopback ports, or why there are none. Read only where a card is attached.
    pub ports: Result<NetPorts, String>,
    /// UEFI firmware, or why there is none. Read only where firmware boots the image.
    pub firmware: Result<Firmware, String>,
    /// Whether a module bundle stands beside the image.
    pub bundle: bool,
}

/// A machine to run.
#[derive(Debug)]
pub struct Machine {
    pub binary: &'static str,
    pub args: Vec<String>,
    /// The exit code that QEMU reports when the guest signalled success.
    pub success_code: i32,
    /// Bytes typed on the guest's serial console as it starts.
    pub input: Vec<u8>,
    /// Whether to answer the kernel's serial receive check.
    pub serial_probe: bool,
    /// The loopback ports on which the kernel's network check is served.
    pub net_port: Option<NetPorts>,
    /// Whether the host is the whole network rather than QEMU's user-mode one.
    pub net_peer: bool,
    /// The run's copy of the test disk.
    pub disk: Option<String>,
}

/// A machine, with its texts as sequences.
pub ghost struct Setup {
    pub binary: Seq<char>,
    pub args: Seq<Seq<char>>,
    pub success_code: int,
    pub input: Seq<u8>,
    pub serial_probe: bool,
    pub net_port: Option<NetPorts>,
    pub net_peer: bool,
    pub disk: Option<Seq<char>>,
}

impl View for Machine {
    type V = Setup;

    open spec fn view(&self) -> Setup {
        Setup {
            binary: self.binary@,
            args: text::views(self.args@),
            success_code: self.success_code as int,
            input: self.input@,
            serial_probe: self.serial_probe,
            net_port: self.net_port,
            net_peer: self.net_peer,
            disk: text::opt(self.disk),
        }
    }
}

/// Whether a symbol is on.
pub open spec fn on(o: resolve::Outcome, symbol: Seq<char>) -> bool {
    bootcfg::on(o, symbol)
}

/// The bytes that `BOOT_TEST_KEYS` types.
pub open spec fn typed(o: resolve::Outcome) -> Seq<u8> {
    vstd::utf8::encode_utf8(resolve::str_in(o, "BOOT_TEST_KEYS"@))
}

pub fn typed_bytes(res: &Resolution) -> (r: Vec<u8>)
    ensures
        r@ == typed(res@),
{
    let keys = res.str("BOOT_TEST_KEYS").as_bytes();
    let r = bytes::copied(keys, 0, keys.len());
    assert(r@ =~= keys@);
    r
}

/// The guest's memory.
pub open spec fn memory(o: resolve::Outcome) -> Seq<char> {
    let m = resolve::int_in(o, "QEMU_MEMORY_MB"@);
    text::decimal(
        if m > 0 {
            m
        } else {
            128
        },
    ) + "M"@
}

/// The guest's processor.
pub open spec fn processor(o: resolve::Outcome) -> Seq<char> {
    let c = resolve::str_in(o, "QEMU_CPU"@);
    if c.len() == 0 {
        "max"@
    } else {
        c
    }
}

fn memory_text(res: &Resolution) -> (r: String)
    ensures
        r@ == memory(res@),
{
    let m: i64 = res.int_value("QEMU_MEMORY_MB");
    let mut r = text::int_text(
        if m > 0 {
            m as i128
        } else {
            128
        },
    );
    r.append("M");
    r
}

fn processor_text(res: &Resolution) -> (r: String)
    ensures
        r@ == processor(res@),
{
    let c = res.str("QEMU_CPU");
    if c.is_empty() {
        "max".to_owned()
    } else {
        c.to_owned()
    }
}

fn list2(a: &str, b: &str) -> (r: Vec<String>)
    ensures
        text::views(r@) == seq![a@, b@],
{
    let mut r: Vec<String> = Vec::new();
    assert(text::views(r@) =~= Seq::<Seq<char>>::empty());
    text::push_text(&mut r, a);
    text::push_text(&mut r, b);
    r
}

fn no_args() -> (r: Vec<String>)
    ensures
        text::views(r@) == Seq::<Seq<char>>::empty(),
{
    let r: Vec<String> = Vec::new();
    assert(text::views(r@) =~= Seq::<Seq<char>>::empty());
    r
}

fn prefixed(a: &str, b: &str) -> (r: String)
    ensures
        r@ == a@ + b@,
{
    let mut r = a.to_owned();
    r.append(b);
    r
}

/// What makes QEMU's memory-mapped virtio transport speak virtio 1.x.
pub open spec fn modern() -> Seq<Seq<char>> {
    seq!["-global"@, "virtio-mmio.force-legacy=false"@]
}

/// A disk's device, with the platform IOMMU in front of it where there is one.
pub open spec fn disk_device(o: resolve::Outcome, device: Seq<char>) -> Seq<char> {
    if on(o, "IOMMU"@) && bytes::begins(device, "virtio-blk-pci"@) {
        device + ",iommu_platform=on"@
    } else {
        device
    }
}

/// The test disk, attached to a virtio-blk device of the given kind, when the configuration asks
/// for it: the run's own copy of the image.
pub open spec fn disk_args(o: resolve::Outcome, image: Seq<char>, device: Seq<char>) -> Seq<Seq<char>> {
    if !on(o, DISK_SYMBOL@) {
        seq![]
    } else {
        let attached = disk_device(o, device);
        let args = seq![
            "-drive"@,
            "file="@ + diskcheck::run_path(image) + ",if=none,id=kt_disk,format=raw"@,
            "-device"@,
            attached + ",drive=kt_disk"@,
        ];
        if attached == "virtio-blk-device"@ {
            args + modern()
        } else {
            args
        }
    }
}

fn begins_text(s: &str, p: &str) -> (r: bool)
    ensures
        r == bytes::begins(s@, p@),
{
    let s = text::chars(s);
    let p = text::chars(p);
    p.len() <= s.len() && text::same_chars(text::part(s.as_slice(), 0, p.len()).as_slice(), p.as_slice())
}

fn block_disk(res: &Resolution, image: &str, device: &str) -> (r: Vec<String>)
    ensures
        text::views(r@) == disk_args(res@, image@, device@),
{
    let mut args = no_args();
    if !res.is_on(DISK_SYMBOL) {
        return args;
    }
    let attached = if res.is_on("IOMMU") && begins_text(device, "virtio-blk-pci") {
        prefixed(device, ",iommu_platform=on")
    } else {
        device.to_owned()
    };
    text::push_text(&mut args, "-drive");
    text::push_text(
        &mut args,
        text::three("file=", diskcheck::run_copy(image).as_str(), ",if=none,id=kt_disk,format=raw").as_str(),
    );
    text::push_text(&mut args, "-device");
    text::push_text(&mut args, prefixed(attached.as_str(), ",drive=kt_disk").as_str());
    if text::same(attached.as_str(), "virtio-blk-device") {
        text::push_texts(&mut args, &list2("-global", "virtio-mmio.force-legacy=false"));
    }
    args
}

/// The network of a run in which the host is the whole of it: one socket pair with raw Ethernet.
pub open spec fn peer_netdev(p: NetPorts) -> Seq<char> {
    "dgram,id=kt_net,local.type=inet,local.host=127.0.0.1,local.port="@ + text::decimal(p.peer_remote as int)
        + ",remote.type=inet,remote.host=127.0.0.1,remote.port="@ + text::decimal(p.peer_local as int)
}

/// QEMU's user-mode network, with the two ports that it forwards to the guest.
pub open spec fn user_netdev(p: NetPorts) -> Seq<char> {
    "user,id=kt_net,hostfwd=udp:127.0.0.1:"@ + text::decimal(p.udp as int) + "-:5555,hostfwd=tcp:127.0.0.1:"@
        + text::decimal(p.inbound as int) + "-:7777"@
}

/// A socket that QEMU connects to.
pub open spec fn socket(id: Seq<char>, port: u16) -> Seq<char> {
    "socket,id="@ + id + ",host=127.0.0.1,port="@ + text::decimal(port as int)
}

/// What the user-mode network needs: the network, and the filters that hand every frame to the host
/// and take it back. A frame from the guest passes the filters last to first, and one to the guest
/// first to last, so the two pairs stand in opposite orders.
pub open spec fn user_args(p: NetPorts) -> Seq<Seq<char>> {
    seq![
        "-netdev"@,
        user_netdev(p),
        "-chardev"@,
        socket("kt_relay_out"@, p.relay_out),
        "-chardev"@,
        socket("kt_relay_in"@, p.relay_in),
        "-object"@,
        "filter-redirector,id=kt_net_in,netdev=kt_net,queue=rx,indev=kt_relay_in"@,
        "-object"@,
        "filter-redirector,id=kt_net_out,netdev=kt_net,queue=rx,outdev=kt_relay_out"@,
        "-chardev"@,
        socket("kt_down_out"@, p.down_out),
        "-chardev"@,
        socket("kt_down_in"@, p.down_in),
        "-object"@,
        "filter-redirector,id=kt_net_down_out,netdev=kt_net,queue=tx,outdev=kt_down_out"@,
        "-object"@,
        "filter-redirector,id=kt_net_down_in,netdev=kt_net,queue=tx,indev=kt_down_in"@,
    ]
}

/// A virtio-net card of the given kind, when the configuration asks for one. The memory-mapped
/// transport is told to be modern once: by the disk's arguments where there is a disk.
pub open spec fn card_args(o: resolve::Outcome, device: Seq<char>, ports: Option<NetPorts>) -> Seq<Seq<char>> {
    match ports {
        None => seq![],
        Some(p) => {
            let network = if on(o, "QEMU_NET_PEER"@) {
                seq!["-netdev"@, peer_netdev(p)]
            } else {
                user_args(p)
            };
            let args = network + seq!["-device"@, device + ",netdev=kt_net"@];
            if device == "virtio-net-device"@ && !on(o, DISK_SYMBOL@) {
                args + modern()
            } else {
                args
            }
        },
    }
}

fn port_text(p: u16) -> (r: String)
    ensures
        r@ == text::decimal(p as int),
{
    text::int_text(p as i128)
}

fn socket_text(id: &str, port: u16) -> (r: String)
    ensures
        r@ == socket(id@, port),
{
    let mut r = prefixed("socket,id=", id);
    r.append(",host=127.0.0.1,port=");
    r.append(port_text(port).as_str());
    r
}

fn user_network(p: &NetPorts) -> (r: Vec<String>)
    ensures
        text::views(r@) == user_args(*p),
{
    let mut netdev = prefixed("user,id=kt_net,hostfwd=udp:127.0.0.1:", port_text(p.udp).as_str());
    netdev.append("-:5555,hostfwd=tcp:127.0.0.1:");
    netdev.append(port_text(p.inbound).as_str());
    netdev.append("-:7777");
    let mut v = no_args();
    text::push_text(&mut v, "-netdev");
    text::push_text(&mut v, netdev.as_str());
    text::push_text(&mut v, "-chardev");
    text::push_text(&mut v, socket_text("kt_relay_out", p.relay_out).as_str());
    text::push_text(&mut v, "-chardev");
    text::push_text(&mut v, socket_text("kt_relay_in", p.relay_in).as_str());
    text::push_text(&mut v, "-object");
    text::push_text(&mut v, "filter-redirector,id=kt_net_in,netdev=kt_net,queue=rx,indev=kt_relay_in");
    text::push_text(&mut v, "-object");
    text::push_text(&mut v, "filter-redirector,id=kt_net_out,netdev=kt_net,queue=rx,outdev=kt_relay_out");
    text::push_text(&mut v, "-chardev");
    text::push_text(&mut v, socket_text("kt_down_out", p.down_out).as_str());
    text::push_text(&mut v, "-chardev");
    text::push_text(&mut v, socket_text("kt_down_in", p.down_in).as_str());
    text::push_text(&mut v, "-object");
    text::push_text(&mut v, "filter-redirector,id=kt_net_down_out,netdev=kt_net,queue=tx,outdev=kt_down_out");
    text::push_text(&mut v, "-object");
    text::push_text(&mut v, "filter-redirector,id=kt_net_down_in,netdev=kt_net,queue=tx,indev=kt_down_in");
    v
}

fn net_card(res: &Resolution, device: &str, ports: Option<NetPorts>) -> (r: Vec<String>)
    ensures
        text::views(r@) == card_args(res@, device@, ports),
{
    let p = match ports {
        Some(p) => p,
        None => return no_args(),
    };
    let mut args = if res.is_on("QEMU_NET_PEER") {
        let mut netdev = prefixed(
            "dgram,id=kt_net,local.type=inet,local.host=127.0.0.1,local.port=",
            port_text(p.peer_remote).as_str(),
        );
        netdev.append(",remote.type=inet,remote.host=127.0.0.1,remote.port=");
        netdev.append(port_text(p.peer_local).as_str());
        list2("-netdev", netdev.as_str())
    } else {
        user_network(&p)
    };
    text::push_texts(&mut args, &list2("-device", prefixed(device, ",netdev=kt_net").as_str()));
    if text::same(device, "virtio-net-device") && !res.is_on(DISK_SYMBOL) {
        text::push_texts(&mut args, &list2("-global", "virtio-mmio.force-legacy=false"));
    }
    args
}

/// The processors and devices that an x86 guest's firmware describes, beyond the chipset's own. The
/// IOMMU comes before the devices it governs. On x86_64 with the BIOS loader the disk has no MSI-X
/// table, so that its interrupt is its pin; on `pc` the card has a slot whose line the disk does not
/// share.
pub open spec fn platform_args(
    o: resolve::Outcome,
    chipset: Seq<char>,
    image: Seq<char>,
    ports: Option<NetPorts>,
) -> Seq<Seq<char>> {
    let cpus = resolve::int_in(o, "QEMU_CPUS"@);
    let smp = seq![
        "-smp"@,
        text::decimal(
            if cpus > 1 {
                cpus
            } else {
                1
            },
        ),
    ];
    let iommu = if on(o, "IOMMU"@) {
        seq!["-device"@, "intel-iommu,intremap=on,eim=on"@]
    } else {
        seq![]
    };
    let disk = if on(o, "ARCH_X86_64"@) && on(o, "KINBOOT_BIOS"@) {
        "virtio-blk-pci,disable-legacy=on,vectors=0"@
    } else {
        "virtio-blk-pci,disable-legacy=on"@
    };
    let card = if chipset == "q35"@ {
        "virtio-net-pci,disable-legacy=on,romfile="@
    } else {
        "virtio-net-pci,disable-legacy=on,romfile=,addr=0x1e"@
    };
    let test_device = if !on(o, "QEMU_PCI_TEST_DEVICE"@) {
        seq![]
    } else if chipset == "q35"@ {
        seq![
            "-device"@,
            "pcie-root-port,id=kt_bridge,chassis=1"@,
            "-device"@,
            "pci-testdev,bus=kt_bridge"@,
        ]
    } else {
        seq![
            "-device"@,
            "pci-bridge,id=kt_bridge,chassis_nr=1"@,
            "-device"@,
            "pci-testdev,bus=kt_bridge,addr=3"@,
        ]
    };
    smp + iommu + disk_args(o, image, disk) + card_args(o, card, ports) + test_device
}

fn x86_platform(res: &Resolution, chipset: &str, image: &str, ports: Option<NetPorts>) -> (r: Vec<String>)
    ensures
        text::views(r@) == platform_args(res@, chipset@, image@, ports),
{
    let cpus: i64 = res.int_value("QEMU_CPUS");
    let cpus: i64 = if cpus > 1 {
        cpus
    } else {
        1
    };
    let q35 = text::same(chipset, "q35");
    let mut args = list2("-smp", text::int_text(cpus as i128).as_str());
    let iommu = if res.is_on("IOMMU") {
        list2("-device", "intel-iommu,intremap=on,eim=on")
    } else {
        no_args()
    };
    text::push_texts(&mut args, &iommu);
    let disk = if res.is_on("ARCH_X86_64") && res.is_on("KINBOOT_BIOS") {
        "virtio-blk-pci,disable-legacy=on,vectors=0"
    } else {
        "virtio-blk-pci,disable-legacy=on"
    };
    text::push_texts(&mut args, &block_disk(res, image, disk));
    let card = if q35 {
        "virtio-net-pci,disable-legacy=on,romfile="
    } else {
        "virtio-net-pci,disable-legacy=on,romfile=,addr=0x1e"
    };
    text::push_texts(&mut args, &net_card(res, card, ports));
    let mut test_device = no_args();
    if res.is_on("QEMU_PCI_TEST_DEVICE") {
        text::push_text(&mut test_device, "-device");
        text::push_text(
            &mut test_device,
            if q35 {
                "pcie-root-port,id=kt_bridge,chassis=1"
            } else {
                "pci-bridge,id=kt_bridge,chassis_nr=1"
            },
        );
        text::push_text(&mut test_device, "-device");
        text::push_text(
            &mut test_device,
            if q35 {
                "pci-testdev,bus=kt_bridge"
            } else {
                "pci-testdev,bus=kt_bridge,addr=3"
            },
        );
    }
    text::push_texts(&mut args, &test_device);
    args
}

/// How an x86 guest gets its kernel: from a raw disk through the BIOS and its loader, or from QEMU's
/// multiboot loader, with the module bundle as a boot module where there is one.
pub open spec fn media_args(o: resolve::Outcome, image: Seq<char>, bundle: bool) -> Seq<Seq<char>> {
    if on(o, bios::SYMBOL@) {
        seq!["-drive"@, "format=raw,file="@ + image, "-boot"@, "reboot-timeout=0"@]
    } else {
        let args = seq!["-kernel"@, image, "-append"@, bootcfg::command_line(o)];
        if on(o, "MODULES"@) && bundle {
            args + seq!["-initrd"@, graph::neighbour(image, modules::BUNDLE@)]
        } else {
            args
        }
    }
}

fn x86_boot_media(res: &Resolution, image: &str, bundle: bool) -> (r: Vec<String>)
    ensures
        text::views(r@) == media_args(res@, image@, bundle),
{
    let mut args = no_args();
    if res.is_on(bios::SYMBOL) {
        text::push_text(&mut args, "-drive");
        text::push_text(&mut args, prefixed("format=raw,file=", image).as_str());
        text::push_text(&mut args, "-boot");
        text::push_text(&mut args, "reboot-timeout=0");
    } else {
        text::push_text(&mut args, "-kernel");
        text::push_text(&mut args, image);
        text::push_text(&mut args, "-append");
        text::push_text(&mut args, bootcfg::kernel_command_line(res).as_str());
        if res.is_on("MODULES") && bundle {
            text::push_texts(&mut args, &list2("-initrd", graph::beside(image, modules::BUNDLE).as_str()));
        }
    }
    args
}

/// Where the guest's console and its log go.
pub open spec fn console_args() -> Seq<Seq<char>> {
    seq!["-serial"@, "stdio"@, "-display"@, "none"@]
}

/// What a direct boot logs: exceptions and guest errors, to a file.
pub open spec fn log_args(log: Seq<char>) -> Seq<Seq<char>> {
    seq!["-no-reboot"@, "-d"@, "int,guest_errors"@, "-D"@, log]
}

fn push_console(args: &mut Vec<String>)
    ensures
        text::views(final(args)@) == text::views(old(args)@) + console_args(),
{
    let mut v = no_args();
    text::push_text(&mut v, "-serial");
    text::push_text(&mut v, "stdio");
    text::push_text(&mut v, "-display");
    text::push_text(&mut v, "none");
    text::push_texts(args, &v);
}

pub fn push_console_and_log(args: &mut Vec<String>, log: &str)
    ensures
        text::views(final(args)@) == text::views(old(args)@) + console_args() + log_args(log@),
{
    push_console(args);
    let mut v = no_args();
    text::push_text(&mut v, "-no-reboot");
    text::push_text(&mut v, "-d");
    text::push_text(&mut v, "int,guest_errors");
    text::push_text(&mut v, "-D");
    text::push_text(&mut v, log);
    text::push_texts(args, &v);
}

/// What every machine begins with.
pub open spec fn machine_args(machine: Seq<char>, cpu: Seq<char>, mem: Seq<char>) -> Seq<Seq<char>> {
    seq!["-machine"@, machine, "-cpu"@, cpu, "-m"@, mem]
}

fn machine_list(machine: &str, cpu: &str, mem: &str) -> (r: Vec<String>)
    ensures
        text::views(r@) == machine_args(machine@, cpu@, mem@),
{
    let mut v = no_args();
    text::push_text(&mut v, "-machine");
    text::push_text(&mut v, machine);
    text::push_text(&mut v, "-cpu");
    text::push_text(&mut v, cpu);
    text::push_text(&mut v, "-m");
    text::push_text(&mut v, mem);
    v
}

/// The x86 result channel.
pub open spec fn debug_exit() -> Seq<Seq<char>> {
    seq!["-device"@, "isa-debug-exit,iobase=0xf4,iosize=0x04"@]
}

/// The run's copy of the test disk, where there is one.
pub open spec fn disk_of(o: resolve::Outcome, image: Seq<char>) -> Option<Seq<char>> {
    if on(o, DISK_SYMBOL@) {
        Some(diskcheck::run_path(image))
    } else {
        None
    }
}

/// A machine with a network card and a disk, as far as the configuration asks for them.
pub open spec fn setup(
    o: resolve::Outcome,
    image: Seq<char>,
    ports: Option<NetPorts>,
    binary: Seq<char>,
    args: Seq<Seq<char>>,
    success_code: int,
) -> Setup {
    Setup {
        binary,
        args,
        success_code,
        input: typed(o),
        serial_probe: on(o, "SERIAL_IRQ_TEST"@),
        net_port: ports,
        net_peer: on(o, "QEMU_NET_PEER"@),
        disk: disk_of(o, image),
    }
}

/// The arguments of a boot through UEFI firmware. No `-kernel`: QEMU's own loader is what these
/// configurations exist to not use. A reset ends the run, except in the boot counter test, which is
/// a sequence of boots of one machine.
pub open spec fn firmware_args(
    o: resolve::Outcome,
    image: Seq<char>,
    log: Seq<char>,
    ports: Option<NetPorts>,
    code: Seq<char>,
    vars: Option<Seq<char>>,
) -> Seq<Seq<char>> {
    let code_drive = seq!["-drive"@, "if=pflash,format=raw,unit=0,readonly=on,file="@ + code];
    let vars_drive = match vars {
        Some(v) => seq!["-drive"@, "if=pflash,format=raw,unit=1,file="@ + v],
        None => seq![],
    };
    let image_drive = seq!["-drive"@, "format=raw,snapshot=on,file="@ + image];
    let tracing = seq!["-d"@, "guest_errors,cpu_reset"@, "-D"@, log];
    let reset = if on(o, "BOOT_COUNTER_TEST"@) {
        seq![]
    } else {
        seq!["-no-reboot"@]
    };
    machine_args("q35"@, processor(o), memory(o)) + code_drive + vars_drive + image_drive + platform_args(
        o,
        "q35"@,
        image,
        ports,
    ) + debug_exit() + console_args() + tracing + reset
}

/// The arguments of an x86 boot without firmware of its own. With an IOMMU, interrupt remapping
/// needs the split interrupt controller; the legacy target stays on the legacy chipset.
pub open spec fn x86_args(
    o: resolve::Outcome,
    image: Seq<char>,
    log: Seq<char>,
    ports: Option<NetPorts>,
    bundle: bool,
    chipset: Seq<char>,
    machine: Seq<char>,
) -> Seq<Seq<char>> {
    machine_args(machine, processor(o), memory(o)) + debug_exit() + console_args() + log_args(log) + platform_args(
        o,
        chipset,
        image,
        ports,
    ) + media_args(o, image, bundle)
}

/// The arguments of an aarch64 boot. `-smp` only when there is more than one processor.
pub open spec fn aarch64_args(o: resolve::Outcome, image: Seq<char>, log: Seq<char>, ports: Option<NetPorts>) -> Seq<
    Seq<char>,
> {
    let cpus = resolve::int_in(o, "QEMU_CPUS"@);
    let smp = if cpus > 1 {
        seq!["-smp"@, text::decimal(cpus)]
    } else {
        seq![]
    };
    let boot = seq![
        "-kernel"@,
        image,
        "-append"@,
        bootcfg::command_line(o),
        "-semihosting-config"@,
        "enable=on,target=native"@,
    ];
    machine_args("virt,gic-version=3"@, processor(o), memory(o)) + smp + disk_args(o, image, "virtio-blk-device"@)
        + card_args(o, "virtio-net-device"@, ports) + boot + console_args() + log_args(log)
}

/// The arguments of a riscv32 boot: no firmware, and for an image without atomics a hart that
/// refuses what it avoids.
pub open spec fn riscv32_args(o: resolve::Outcome, image: Seq<char>, log: Seq<char>) -> Seq<Seq<char>> {
    let cpu = if on(o, "RISCV32_NO_ATOMICS"@) {
        seq![
            "-cpu"@,
            "rv32,a=false,zawrs=false,m=false,zmmul=false,c=false,zca=false,zcf=false,zcd=false"@,
        ]
    } else {
        seq![]
    };
    let boot = seq!["-bios"@, "none"@, "-m"@, memory(o), "-kernel"@, image, "-append"@, bootcfg::command_line(o)];
    seq!["-machine"@, "virt"@] + cpu + boot + console_args() + log_args(log)
}

/// Why a machine with too many processors is refused.
pub open spec fn too_many_cpus(cpus: int, most: int) -> Seq<char> {
    "QEMU_CPUS="@ + text::decimal(cpus) + " is more than NR_CPUS="@ + text::decimal(most)
        + ": the kernel would start only "@ + text::decimal(most)
        + " of them\n  raise NR_CPUS, which also sizes the thread-stack array, or lower QEMU_CPUS"@
}

/// Whether firmware boots the image.
pub open spec fn boots_firmware(o: resolve::Outcome) -> bool {
    on(o, "ARCH_X86_64"@) && (on(o, "KINBOOT_EFI"@) || on(o, "KINBOOT_STUB"@))
}

/// The machine, where it has the processors it was asked for and the ports it needs.
pub open spec fn machine_on(
    o: resolve::Outcome,
    image: Seq<char>,
    log: Seq<char>,
    ports: Option<NetPorts>,
    firmware: Result<Firmware, String>,
    bundle: bool,
) -> Result<Setup, Seq<char>> {
    if boots_firmware(o) {
        match firmware {
            Err(e) => Err(e@),
            Ok(fw) => Ok(
                setup(
                    o,
                    image,
                    ports,
                    "qemu-system-x86_64"@,
                    firmware_args(o, image, log, ports, fw.code@, text::opt(fw.vars)),
                    X86_SUCCESS as int,
                ),
            ),
        }
    } else if on(o, "ARCH_X86_64"@) {
        let machine = if on(o, "IOMMU"@) {
            "q35,kernel-irqchip=split"@
        } else {
            "q35"@
        };
        Ok(
            setup(
                o,
                image,
                ports,
                "qemu-system-x86_64"@,
                x86_args(o, image, log, ports, bundle, "q35"@, machine),
                X86_SUCCESS as int,
            ),
        )
    } else if on(o, "ARCH_I686"@) {
        Ok(
            setup(
                o,
                image,
                ports,
                "qemu-system-i386"@,
                x86_args(o, image, log, ports, bundle, "pc"@, "pc"@),
                X86_SUCCESS as int,
            ),
        )
    } else if on(o, "ARCH_AARCH64"@) {
        Ok(setup(o, image, ports, "qemu-system-aarch64"@, aarch64_args(o, image, log, ports), 0))
    } else if on(o, "ARCH_RISCV32"@) {
        Ok(
            Setup {
                net_port: None,
                net_peer: false,
                disk: None,
                ..setup(o, image, ports, "qemu-system-riscv32"@, riscv32_args(o, image, log), 0)
            },
        )
    } else if on(o, "ARCH_ARMV7M"@) {
        Ok(qemu_armv7m::setup(o, image, log))
    } else {
        Err("no QEMU machine is defined for this configuration"@)
    }
}

/// The machine that a configuration is run on, or why there is none. A kernel built for fewer
/// processors than the guest has would start only some of them, so its checks would speak of
/// another machine than the one asked for.
pub open spec fn machine_of(o: resolve::Outcome, image: Seq<char>, log: Seq<char>, host: Host) -> Result<
    Setup,
    Seq<char>,
> {
    let (cpus, most) = (resolve::int_in(o, "QEMU_CPUS"@), resolve::int_in(o, "NR_CPUS"@));
    if on(o, "SMP"@) && cpus > most {
        Err(too_many_cpus(cpus, most))
    } else if on(o, "QEMU_NET_TEST"@) {
        match host.ports {
            Err(e) => Err(e@),
            Ok(p) => machine_on(o, image, log, Some(p), host.firmware, host.bundle),
        }
    } else {
        machine_on(o, image, log, None, host.firmware, host.bundle)
    }
}

/// Whether a network card is attached, so that the host is to be asked for ports.
pub fn needs_ports(res: &Resolution) -> (r: bool)
    ensures
        r == on(res@, "QEMU_NET_TEST"@),
{
    res.is_on("QEMU_NET_TEST")
}

/// Whether firmware boots the image, so that the host is to be asked for it.
pub fn needs_firmware(res: &Resolution) -> (r: bool)
    ensures
        r == boots_firmware(res@),
{
    res.is_on("ARCH_X86_64") && (res.is_on("KINBOOT_EFI") || res.is_on("KINBOOT_STUB"))
}

fn disk_copy(res: &Resolution, image: &str) -> (r: Option<String>)
    ensures
        text::opt(r) == disk_of(res@, image@),
{
    if res.is_on(DISK_SYMBOL) {
        Some(diskcheck::run_copy(image))
    } else {
        None
    }
}

fn assembled(
    res: &Resolution,
    image: &str,
    ports: Option<NetPorts>,
    binary: &'static str,
    args: Vec<String>,
    success_code: i32,
) -> (r: Machine)
    ensures
        r@ == setup(res@, image@, ports, binary@, text::views(args@), success_code as int),
{
    Machine {
        binary,
        args,
        success_code,
        input: typed_bytes(res),
        serial_probe: res.is_on("SERIAL_IRQ_TEST"),
        net_port: ports,
        net_peer: res.is_on("QEMU_NET_PEER"),
        disk: disk_copy(res, image),
    }
}

fn firmware_list(res: &Resolution, image: &str, log: &str, ports: Option<NetPorts>, fw: &Firmware) -> (r: Vec<String>)
    ensures
        text::views(r@) == firmware_args(res@, image@, log@, ports, fw.code@, text::opt(fw.vars)),
{
    let mut args = machine_list("q35", processor_text(res).as_str(), memory_text(res).as_str());
    text::push_texts(
        &mut args,
        &list2("-drive", prefixed("if=pflash,format=raw,unit=0,readonly=on,file=", fw.code.as_str()).as_str()),
    );
    let vars_drive = match &fw.vars {
        Some(v) => list2("-drive", prefixed("if=pflash,format=raw,unit=1,file=", v.as_str()).as_str()),
        None => no_args(),
    };
    text::push_texts(&mut args, &vars_drive);
    text::push_texts(&mut args, &list2("-drive", prefixed("format=raw,snapshot=on,file=", image).as_str()));
    text::push_texts(&mut args, &x86_platform(res, "q35", image, ports));
    text::push_texts(&mut args, &list2("-device", "isa-debug-exit,iobase=0xf4,iosize=0x04"));
    push_console(&mut args);
    let mut tracing = list2("-d", "guest_errors,cpu_reset");
    text::push_text(&mut tracing, "-D");
    text::push_text(&mut tracing, log);
    text::push_texts(&mut args, &tracing);
    let mut reset = no_args();
    if !res.is_on("BOOT_COUNTER_TEST") {
        text::push_text(&mut reset, "-no-reboot");
    }
    text::push_texts(&mut args, &reset);
    args
}

fn x86_list(
    res: &Resolution,
    image: &str,
    log: &str,
    ports: Option<NetPorts>,
    bundle: bool,
    chipset: &str,
    machine: &str,
) -> (r: Vec<String>)
    ensures
        text::views(r@) == x86_args(res@, image@, log@, ports, bundle, chipset@, machine@),
{
    let mut args = machine_list(machine, processor_text(res).as_str(), memory_text(res).as_str());
    text::push_texts(&mut args, &list2("-device", "isa-debug-exit,iobase=0xf4,iosize=0x04"));
    push_console_and_log(&mut args, log);
    text::push_texts(&mut args, &x86_platform(res, chipset, image, ports));
    text::push_texts(&mut args, &x86_boot_media(res, image, bundle));
    args
}

fn aarch64_list(res: &Resolution, image: &str, log: &str, ports: Option<NetPorts>) -> (r: Vec<String>)
    ensures
        text::views(r@) == aarch64_args(res@, image@, log@, ports),
{
    let mut args = machine_list("virt,gic-version=3", processor_text(res).as_str(), memory_text(res).as_str());
    let cpus: i64 = res.int_value("QEMU_CPUS");
    let smp = if cpus > 1 {
        list2("-smp", text::int_text(cpus as i128).as_str())
    } else {
        no_args()
    };
    text::push_texts(&mut args, &smp);
    text::push_texts(&mut args, &block_disk(res, image, "virtio-blk-device"));
    text::push_texts(&mut args, &net_card(res, "virtio-net-device", ports));
    let mut boot = list2("-kernel", image);
    text::push_text(&mut boot, "-append");
    text::push_text(&mut boot, bootcfg::kernel_command_line(res).as_str());
    text::push_text(&mut boot, "-semihosting-config");
    text::push_text(&mut boot, "enable=on,target=native");
    text::push_texts(&mut args, &boot);
    push_console_and_log(&mut args, log);
    args
}

fn riscv32_list(res: &Resolution, image: &str, log: &str) -> (r: Vec<String>)
    ensures
        text::views(r@) == riscv32_args(res@, image@, log@),
{
    let mut args = list2("-machine", "virt");
    let cpu = if res.is_on("RISCV32_NO_ATOMICS") {
        list2("-cpu", "rv32,a=false,zawrs=false,m=false,zmmul=false,c=false,zca=false,zcf=false,zcd=false")
    } else {
        no_args()
    };
    text::push_texts(&mut args, &cpu);
    let mut boot = list2("-bios", "none");
    text::push_text(&mut boot, "-m");
    text::push_text(&mut boot, memory_text(res).as_str());
    text::push_text(&mut boot, "-kernel");
    text::push_text(&mut boot, image);
    text::push_text(&mut boot, "-append");
    text::push_text(&mut boot, bootcfg::kernel_command_line(res).as_str());
    text::push_texts(&mut args, &boot);
    push_console_and_log(&mut args, log);
    args
}

/// The machine that a configuration is run on: an image, and a file for QEMU's log.
pub fn machine_for(res: &Resolution, image: &str, log: &str, host: &Host) -> (r: Result<Machine, String>)
    ensures
        match r {
            Ok(m) => machine_of(res@, image@, log@, *host) == Ok::<Setup, Seq<char>>(m@),
            Err(e) => machine_of(res@, image@, log@, *host) == Err::<Setup, Seq<char>>(e@),
        },
{
    let cpus: i64 = res.int_value("QEMU_CPUS");
    let most: i64 = res.int_value("NR_CPUS");
    if res.is_on("SMP") && cpus > most {
        let mut e = prefixed("QEMU_CPUS=", text::int_text(cpus as i128).as_str());
        e.append(" is more than NR_CPUS=");
        e.append(text::int_text(most as i128).as_str());
        e.append(": the kernel would start only ");
        e.append(text::int_text(most as i128).as_str());
        e.append(" of them\n  raise NR_CPUS, which also sizes the thread-stack array, or lower QEMU_CPUS");
        return Err(e);
    }
    let ports: Option<NetPorts> = if res.is_on("QEMU_NET_TEST") {
        match &host.ports {
            Ok(p) => Some(*p),
            Err(e) => return Err(e.as_str().to_owned()),
        }
    } else {
        None
    };
    if needs_firmware(res) {
        return match &host.firmware {
            Err(e) => Err(e.as_str().to_owned()),
            Ok(fw) => {
                let args = firmware_list(res, image, log, ports, fw);
                Ok(assembled(res, image, ports, "qemu-system-x86_64", args, X86_SUCCESS))
            },
        };
    }
    if res.is_on("ARCH_X86_64") {
        let machine = if res.is_on("IOMMU") {
            "q35,kernel-irqchip=split"
        } else {
            "q35"
        };
        let args = x86_list(res, image, log, ports, host.bundle, "q35", machine);
        return Ok(assembled(res, image, ports, "qemu-system-x86_64", args, X86_SUCCESS));
    }
    if res.is_on("ARCH_I686") {
        let args = x86_list(res, image, log, ports, host.bundle, "pc", "pc");
        return Ok(assembled(res, image, ports, "qemu-system-i386", args, X86_SUCCESS));
    }
    if res.is_on("ARCH_AARCH64") {
        let args = aarch64_list(res, image, log, ports);
        return Ok(assembled(res, image, ports, "qemu-system-aarch64", args, 0));
    }
    if res.is_on("ARCH_RISCV32") {
        let args = riscv32_list(res, image, log);
        return Ok(
            Machine {
                binary: "qemu-system-riscv32",
                args,
                success_code: 0,
                input: typed_bytes(res),
                serial_probe: res.is_on("SERIAL_IRQ_TEST"),
                net_port: None,
                net_peer: false,
                disk: None,
            },
        );
    }
    if res.is_on("ARCH_ARMV7M") {
        return Ok(qemu_armv7m::machine(res, image, log));
    }
    Err("no QEMU machine is defined for this configuration".to_owned())
}

/// Where firmware may stand: its code, and its variable store.
pub open spec fn places_of(v: Seq<(String, Option<String>)>) -> Seq<(Seq<char>, Option<Seq<char>>)> {
    v.map_values(|p: (String, Option<String>)| (p.0@, text::opt(p.1)))
}

/// Where firmware may stand below the directories beside QEMU.
pub open spec fn shared_places(shares: Seq<Seq<char>>) -> Seq<(Seq<char>, Option<Seq<char>>)> {
    shares.map_values(
        |s: Seq<char>|
            (graph::below(s, "edk2-x86_64-code.fd"@), Some(graph::below(s, "edk2-i386-vars.fd"@))),
    )
}

/// Every place where firmware is looked for, in order: what the environment names, the build that
/// QEMU itself ships, and where the distributions put it.
pub open spec fn firmware_places(
    code: Option<Seq<char>>,
    vars: Option<Seq<char>>,
    shares: Seq<Seq<char>>,
) -> Seq<(Seq<char>, Option<Seq<char>>)> {
    let named = match code {
        Some(c) => seq![(c, vars)],
        None => seq![],
    };
    named + shared_places(shares) + seq![
        ("/usr/share/OVMF/OVMF_CODE_4M.fd"@, Some("/usr/share/OVMF/OVMF_VARS_4M.fd"@)),
        ("/usr/share/OVMF/OVMF_CODE.fd"@, Some("/usr/share/OVMF/OVMF_VARS.fd"@)),
        ("/usr/share/edk2/ovmf/OVMF_CODE.fd"@, Some("/usr/share/edk2/ovmf/OVMF_VARS.fd"@)),
        ("/usr/share/edk2/x64/OVMF_CODE.4m.fd"@, Some("/usr/share/edk2/x64/OVMF_VARS.4m.fd"@)),
    ]
}

fn push_place(v: &mut Vec<(String, Option<String>)>, code: &str, vars: &str)
    ensures
        places_of(final(v)@) == places_of(old(v)@).push((code@, Some(vars@))),
{
    let ghost before = places_of(v@);
    v.push((code.to_owned(), Some(vars.to_owned())));
    assert(places_of(v@) =~= before.push((code@, Some(vars@))));
}

/// Every place where firmware is looked for, in order. `code` and `vars` are what the environment
/// names, and `shares` the data directories of the QEMU that will run.
pub fn firmware_candidates(code: &Option<String>, vars: &Option<String>, shares: &Vec<String>) -> (r: Vec<
    (String, Option<String>),
>)
    ensures
        places_of(r@) == firmware_places(text::opt(*code), text::opt(*vars), text::views(shares@)),
{
    let ghost all = text::views(shares@);
    let mut out: Vec<(String, Option<String>)> = Vec::new();
    assert(places_of(out@) =~= seq![]);
    if let Some(c) = code {
        out.push((c.as_str().to_owned(), text::copy_opt(vars)));
    }
    let ghost named = places_of(out@);
    assert(named =~= match text::opt(*code) {
        Some(c) => seq![(c, text::opt(*vars))],
        None => seq![],
    });
    let mut i: usize = 0;
    assert(named =~= named + shared_places(all).subrange(0, 0));
    while i < shares.len()
        invariant
            i <= shares@.len(),
            all == text::views(shares@),
            places_of(out@) == named + shared_places(all).subrange(0, i as int),
        decreases shares@.len() - i,
    {
        assert(all[i as int] == shares@[i as int]@);
        push_place(
            &mut out,
            graph::join_path(shares[i].as_str(), "edk2-x86_64-code.fd").as_str(),
            graph::join_path(shares[i].as_str(), "edk2-i386-vars.fd").as_str(),
        );
        assert(places_of(out@) =~= named + shared_places(all).subrange(0, i + 1));
        i += 1;
    }
    assert(shared_places(all).subrange(0, i as int) =~= shared_places(all));
    push_place(&mut out, "/usr/share/OVMF/OVMF_CODE_4M.fd", "/usr/share/OVMF/OVMF_VARS_4M.fd");
    push_place(&mut out, "/usr/share/OVMF/OVMF_CODE.fd", "/usr/share/OVMF/OVMF_VARS.fd");
    push_place(&mut out, "/usr/share/edk2/ovmf/OVMF_CODE.fd", "/usr/share/edk2/ovmf/OVMF_VARS.fd");
    push_place(&mut out, "/usr/share/edk2/x64/OVMF_CODE.4m.fd", "/usr/share/edk2/x64/OVMF_VARS.4m.fd");
    assert(places_of(out@) =~= firmware_places(text::opt(*code), text::opt(*vars), all));
    out
}

/// The first place that holds firmware.
pub open spec fn first_held(held: Seq<bool>, i: int) -> Option<int>
    decreases held.len() - i,
{
    if i < 0 || i >= held.len() {
        None
    } else if held[i] {
        Some(i)
    } else {
        first_held(held, i + 1)
    }
}

/// Why no firmware was found.
pub open spec fn no_firmware(places: Seq<(Seq<char>, Option<Seq<char>>)>) -> Seq<char> {
    "no UEFI firmware (OVMF) found for x86_64\n  tried:\n    "@ + text::joined(
        places.map_values(|p: (Seq<char>, Option<Seq<char>>)| p.0),
        "\n    "@,
    ) + "\n  install the `ovmf` package, or set KINTANE_OVMF_CODE to the firmware image"@
}

/// The first candidate whose code is there. `held` says of each whether it is.
pub fn pick_firmware(candidates: &Vec<(String, Option<String>)>, held: &Vec<bool>) -> (r: Result<usize, String>)
    requires
        held@.len() == candidates@.len(),
    ensures
        match r {
            Ok(i) => first_held(held@, 0) == Some(i as int) && i < candidates@.len(),
            Err(e) => first_held(held@, 0) == None::<int> && e@ == no_firmware(places_of(candidates@)),
        },
{
    let mut i: usize = 0;
    while i < held.len()
        invariant
            i <= held@.len() == candidates@.len(),
            first_held(held@, 0) == first_held(held@, i as int),
        decreases held@.len() - i,
    {
        if held[i] {
            return Ok(i);
        }
        i += 1;
    }
    let ghost tried_all = places_of(candidates@).map_values(|p: (Seq<char>, Option<Seq<char>>)| p.0);
    let mut tried = no_args();
    let mut j: usize = 0;
    assert(tried_all.subrange(0, 0) =~= seq![]);
    while j < candidates.len()
        invariant
            j <= candidates@.len(),
            tried_all == places_of(candidates@).map_values(|p: (Seq<char>, Option<Seq<char>>)| p.0),
            text::views(tried@) == tried_all.subrange(0, j as int),
        decreases candidates@.len() - j,
    {
        text::push_text(&mut tried, candidates[j].0.as_str());
        assert(text::views(tried@) =~= tried_all.subrange(0, j + 1));
        j += 1;
    }
    assert(tried_all.subrange(0, j as int) =~= tried_all);
    Err(
        text::three(
            "no UEFI firmware (OVMF) found for x86_64\n  tried:\n    ",
            text::join(&tried, "\n    ").as_str(),
            "\n  install the `ovmf` package, or set KINTANE_OVMF_CODE to the firmware image",
        ),
    )
}

/// The memory-mapped virtio transport is told once to be modern, however many devices use it.
pub proof fn transport_is_made_modern_once(o: resolve::Outcome, image: Seq<char>, p: NetPorts)
    requires
        on(o, DISK_SYMBOL@),
    ensures
        card_args(o, "virtio-net-device"@, Some(p)).last() == "virtio-net-device"@ + ",netdev=kt_net"@,
        disk_args(o, image, "virtio-blk-device"@).subrange(4, 6) == modern(),
{
    reveal_strlit("virtio-blk-device");
    reveal_strlit("virtio-blk-pci");
    let d = "virtio-blk-device"@;
    assert(d.subrange(0, 14)[11] != "virtio-blk-pci"@[11]);
    assert(disk_args(o, image, d).subrange(4, 6) =~= modern());
}

} // verus!
