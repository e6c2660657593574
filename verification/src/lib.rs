//! Decisions behind `jog`, a command-line tool for the ATSAM4E8C microcontroller.
pub mod catalogs;
pub mod chip;
pub mod commands;
pub mod config;
pub mod control;
pub mod dump;
pub mod elf;
pub mod error;
pub mod flash;
pub mod ihex;
pub mod image;
pub mod limits;
pub mod links;
pub mod number;
pub mod openocd;
pub mod order;
pub mod outcomes;
pub mod plans;
pub mod promises;
pub mod readings;
pub mod records;
pub mod safety;
pub mod session;
pub mod shows;
pub mod target;
pub mod tcl;
pub mod text;
pub mod walk;
pub mod wording;
