//! Packaging a linked image into something the platform's loader will accept.

use vstd::prelude::*;
use vstd::string::*;

use crate::fat16::File;
use crate::text;

verus! {

/// The chainload test application as a boot entry names it: its path on the EFI system partition,
/// the way UEFI spells paths.
pub const ESP_CHAIN_TEST_ENTRY_PATH: &'static str = "\\EFI\\KINTANE\\CHAIN.EFI";

/// How a linked image is packaged.
#[derive(Clone, Copy, Debug, PartialEq, Eq, Structural)]
pub enum Packaging {
    /// Stripped, as it is.
    Elf,
    /// Stripped, in a 32-bit container: QEMU's multiboot loader refuses a 64-bit one, though every
    /// address in the image fits in 32 bits.
    MultibootElf32,
    /// On a disk whose EFI system partition holds it.
    EfiEsp,
}

/// How a format's name is packaged, or why it cannot be.
pub open spec fn packaging_of(format: Seq<char>, first: Option<Seq<char>>) -> Result<Packaging, Seq<char>> {
    if format == "efi-esp"@ {
        Ok(Packaging::EfiEsp)
    } else if first is Some {
        Err("`"@ + first->0 + "` was built, but the "@ + format + " image format has no place for it"@)
    } else if format == ""@ || format == "elf"@ {
        Ok(Packaging::Elf)
    } else if format == "multiboot-elf32"@ {
        Ok(Packaging::MultibootElf32)
    } else {
        Err("unknown image format `"@ + format + "`"@)
    }
}

/// How an image is packaged. `images` names the images that were built beside the kernel, which
/// only the EFI system partition has a place for.
pub fn packaging(format: &str, images: &Vec<String>) -> (r: Result<Packaging, String>)
    ensures
        ({
            let first = if images@.len() > 0 {
                Some(images@[0]@)
            } else {
                None
            };
            match r {
                Ok(p) => packaging_of(format@, first) == Ok::<Packaging, Seq<char>>(p),
                Err(e) => packaging_of(format@, first) == Err::<Packaging, Seq<char>>(e@),
            }
        }),
{
    if text::same(format, "efi-esp") {
        return Ok(Packaging::EfiEsp);
    }
    if images.len() > 0 {
        let mut m = "`".to_owned();
        m.append(images[0].as_str());
        m.append("` was built, but the ");
        m.append(format);
        m.append(" image format has no place for it");
        return Err(m);
    }
    if text::same(format, "") || text::same(format, "elf") {
        Ok(Packaging::Elf)
    } else if text::same(format, "multiboot-elf32") {
        Ok(Packaging::MultibootElf32)
    } else {
        Err(text::three("unknown image format `", format, "`"))
    }
}

/// Where an image built for the EFI system partition goes, by unit name.
pub open spec fn esp_place(name: Seq<char>) -> Option<Seq<char>> {
    if name == "kinboot_efi"@ {
        Some("EFI/BOOT/BOOTX64.EFI"@)
    } else if name == "kinboot_efi_chaintest"@ {
        Some("EFI/KINTANE/CHAIN.EFI"@)
    } else {
        None
    }
}

fn find_place(name: &str) -> (r: Option<&'static str>)
    ensures
        match r {
            Some(p) => esp_place(name@) == Some(p@),
            None => esp_place(name@) == None::<Seq<char>>,
        },
{
    if text::same(name, "kinboot_efi") {
        Some("EFI/BOOT/BOOTX64.EFI")
    } else if text::same(name, "kinboot_efi_chaintest") {
        Some("EFI/KINTANE/CHAIN.EFI")
    } else {
        None
    }
}

/// A file to place: its path and contents.
pub ghost struct Placed {
    pub path: Seq<char>,
    pub data: Seq<u8>,
}

/// What a list of files holds.
pub open spec fn placed(v: Seq<File<'_>>) -> Seq<Placed> {
    v.map_values(|f: File<'_>| Placed { path: f.path@, data: f.data@ })
}

/// Which of the first `n` images has no place: the first that has none.
pub open spec fn homeless(images: Seq<(String, Vec<u8>)>, n: nat) -> Option<Seq<char>>
    decreases n,
{
    if n == 0 {
        None
    } else if homeless(images, (n - 1) as nat) is Some {
        homeless(images, (n - 1) as nat)
    } else if esp_place(images[n - 1].0@) is None {
        Some(images[n - 1].0@)
    } else {
        None
    }
}

proof fn homeless_stays(images: Seq<(String, Vec<u8>)>, n: nat, m: nat)
    requires
        homeless(images, n) is Some,
        n <= m,
    ensures
        homeless(images, m) == homeless(images, n),
    decreases m,
{
    if n < m {
        homeless_stays(images, n, (m - 1) as nat);
    }
}

/// Whether the loader is among the images.
pub open spec fn has_loader(images: Seq<(String, Vec<u8>)>) -> bool {
    exists|i: int| 0 <= i < images.len() && (#[trigger] images[i]).0@ == "kinboot_efi"@
}

/// Whether the loader is among the images.
pub fn check_loader(images: &Vec<(String, Vec<u8>)>) -> (r: Result<(), String>)
    ensures
        match r {
            Ok(_) => has_loader(images@),
            Err(e) => !has_loader(images@) && e@
                == "the efi-esp image format needs kinboot_efi, and it is not enabled"@,
        },
{
    let mut i: usize = 0;
    while i < images.len()
        invariant
            i <= images@.len(),
            forall|k: int| 0 <= k < i ==> (#[trigger] images@[k]).0@ != "kinboot_efi"@,
        decreases images@.len() - i,
    {
        if text::same(images[i].0.as_str(), "kinboot_efi") {
            assert(images@[i as int].0@ == "kinboot_efi"@);
            return Ok(());
        }
        i += 1;
    }
    Err("the efi-esp image format needs kinboot_efi, and it is not enabled".to_owned())
}

/// The files of an EFI system partition: the loader and the other images where the firmware and
/// the boot entries look for them, then the kernel and the boot entries, where the loader does.
pub open spec fn esp_files_of(images: Seq<(String, Vec<u8>)>, kernel: Seq<u8>, entries: Seq<char>) -> Seq<Placed> {
    images.map_values(|m: (String, Vec<u8>)| Placed { path: esp_place(m.0@)->0, data: m.1@ }) + seq![
        Placed { path: "KINTANE/KERNEL.ELF"@, data: kernel },
        Placed { path: "KINTANE/BOOT.CFG"@, data: vstd::utf8::encode_utf8(entries) },
    ]
}

/// The files of an EFI system partition.
pub fn esp_files<'a>(images: &'a Vec<(String, Vec<u8>)>, kernel: &'a [u8], entries: &'a str) -> (r: Result<
    Vec<File<'a>>,
    String,
>)
    ensures
        match homeless(images@, images@.len()) {
            Some(name) => r is Err && r->Err_0@ == "`"@ + name + "` was built, but the ESP has no place for it"@,
            None => r is Ok && placed(r->Ok_0@) == esp_files_of(images@, kernel@, entries@),
        },
{
    let mut files: Vec<File<'a>> = Vec::new();
    let mut i: usize = 0;
    while i < images.len()
        invariant
            i <= images@.len(),
            files@.len() == i,
            homeless(images@, i as nat) is None,
            forall|k: int|
                0 <= k < i ==> (#[trigger] files@[k]).path@ == esp_place(images@[k].0@)->0 && files@[k].data@
                    == images@[k].1@,
        decreases images@.len() - i,
    {
        match find_place(images[i].0.as_str()) {
            None => {
                proof {
                    homeless_stays(images@, (i + 1) as nat, images@.len());
                }
                return Err(text::three("`", images[i].0.as_str(), "` was built, but the ESP has no place for it"));
            },
            Some(path) => {
                files.push(File { path, data: images[i].1.as_slice() });
            },
        }
        i += 1;
    }
    files.push(File { path: "KINTANE/KERNEL.ELF", data: kernel });
    files.push(File { path: "KINTANE/BOOT.CFG", data: entries.as_bytes() });
    assert(placed(files@) =~= esp_files_of(images@, kernel@, entries@));
    Ok(files)
}

} // verus!
