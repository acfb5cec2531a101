//! Notices of pending system updates, and what to look at before applying
//! them: the decisions of the program, without its I/O.
//!
//! - [`analisis`] reads what `checkupdates`, `pacman -Qlq` and `pacdiff`
//!   print, and draws the verdict of the pre-flight check.
//! - [`aviso`] decides whether to notify, and fingerprints a set of updates.
//! - [`corrida`] holds the steps of a timer run.
//! - [`fallos`] tells why a check could not be made.
//! - [`sistema`] holds what the program computes around its I/O: the
//!   pre-flight check from the raw outputs, and the remembered notice as
//!   text.
//! - [`texto`] is the character-level vocabulary the others are written in.

pub mod analisis;
pub mod aviso;
pub mod corrida;
pub mod fallos;
pub mod sistema;
pub mod texto;
