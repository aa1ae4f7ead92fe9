//! Yog VLSI — Very Large Scale Integration: design, fabricate and deploy
//! redstone microchips, simulated by a redstone virtual machine.

pub mod alu;
pub mod alu_ui;
pub mod chip;
pub mod commands;
pub mod designs;
pub mod editor;
pub mod network;
pub mod port;
pub mod text;
pub mod vm;
pub mod workbench;
pub mod workbench_inv_ui;
pub mod workbench_ui;

use vstd::prelude::*;

verus! {

/// The mod itself; the application registers its blocks, items, commands
/// and screens with the loader under this type.
pub struct YogVlsi;

} // verus!
