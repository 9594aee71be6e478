//! kbuild: the parts of the KinTane build system that compute.
//!
//! Configuration resolution, the unit graph, the image and disk formats, the simulated
//! network a guest is tested against and the checks made on a build's outputs. Everything
//! here maps plain values to plain values; reading files, running tools and talking to
//! sockets is the program's business.

pub mod acknowledgements;
pub mod bios;
pub mod bootcfg;
pub mod bootstack;
pub mod build;
pub mod buildid;
pub mod bytes;
pub mod cache;
pub mod command_line;
pub mod commands;
pub mod configure;
pub mod conversation;
pub mod crashtest;
pub mod crc;
pub mod digest;
pub mod diskcheck;
pub mod drawing;
pub mod dwarf;
pub mod editing;
pub mod esp;
pub mod fat;
pub mod fat16;
pub mod fat32;
pub mod file_tables;
pub mod fpregs;
pub mod fuzz;
pub mod graph;
pub mod hosttest;
pub mod image;
pub mod kcfg;
pub mod line_program;
pub mod lint;
pub mod listings;
pub mod measures;
pub mod menuconfig;
pub mod modules;
pub mod nesting;
pub mod netpeer;
pub mod observations;
pub mod options;
pub mod paths;
pub mod pe;
pub mod portable;
pub mod qemu;
pub mod qemu_armv7m;
pub mod readings;
pub mod reports;
pub mod sdk;
pub mod selections;
pub mod text;
pub mod words;
