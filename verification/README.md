# kbuild

The build tool of the KinTane kernel: configuration, the crate graph, compiler invocations,
caching, disk and boot images, and running the result under QEMU.

`src/` is the library: everything that kbuild decides and computes, with contracts proved by Verus.
`app/` is the program around it: files, processes, sockets and the terminal. `tests/` runs the
library on concrete values.

| Part of `src/`                          | What it does                                                     |
|-----------------------------------------|------------------------------------------------------------------|
| `kcfg`, `configure`, `menuconfig`       | symbols, their conditions, resolving, generating and editing them |
| `graph`, `build`, `portable`, `hosttest`| which units are built, in what order, and with what arguments     |
| `cache`, `digest`, `crc`, `buildid`     | keys, digests and build IDs                                      |
| `fat`, `fat16`, `fat32`, `esp`, `diskcheck` | FAT volumes: written, read and checked                       |
| `bios`, `image`, `pe`, `bootcfg`, `modules`, `sdk` | boot disks, images, boot entries, module bundles      |
| `qemu`, `netpeer`, `crashtest`          | machines, the guest's network, and what a run came to            |
| `dwarf`, `fpregs`, `bootstack`, `lint`  | reading what was built, and the in-tree rules                    |
| `options`, `commands`, `fuzz`           | the command line                                                 |
| `text`, `bytes`, `paths`                | characters, numbers in bytes, and the order of paths             |
