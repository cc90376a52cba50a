//! Verified protocol core of a debugger-to-simulator bridge.
//!
//! The crate pairs two protocol engines: a byte-framed debug channel
//! (frames bounded by `$` and `#` with a two-digit checksum, plus an
//! out-of-band interrupt byte) and a JSON-message simulation channel.
//! Both are written as pure state machines over bytes, so the event
//! loops around them stay free of protocol logic.

use vstd::prelude::*;

pub mod codec;
pub mod gdb;
pub mod json;
pub mod sim;

verus! {

/// An instruction travelling from the debug channel to the simulator:
/// either the text of one validated command frame, carried as raw
/// bytes, or an out-of-band break request.
#[derive(Debug, Clone, PartialEq, Eq)]
pub enum GdbInstruction {
    Command(Vec<u8>),
    Break,
}

/// Specification-level image of a [`GdbInstruction`].
pub enum InstructionView {
    Command(Seq<u8>),
    Break,
}

impl View for GdbInstruction {
    type V = InstructionView;

    open spec fn view(&self) -> InstructionView {
        match self {
            GdbInstruction::Command(c) => InstructionView::Command(c@),
            GdbInstruction::Break => InstructionView::Break,
        }
    }
}

/// One region of the firmware image: its absolute flash address and
/// its raw bytes, as the firmware build step hands them over.
#[derive(Debug, Clone, PartialEq, Eq)]
pub struct FlashSegment {
    pub addr: u32,
    pub data: Vec<u8>,
}

/// The data of the session-start payload sent to a freshly connected
/// simulation client: the whole firmware image and each flash segment,
/// all already encoded to base64 bytes, the segments in the order the
/// build step supplied them.
#[derive(Debug, Clone, PartialEq, Eq)]
pub struct SimulationPacket {
    pub elf: Vec<u8>,
    pub esp_bin: Vec<(u32, Vec<u8>)>,
}

} // verus!
