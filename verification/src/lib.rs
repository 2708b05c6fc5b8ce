//! A toolchain for a small 16-bit instruction set architecture: an
//! assembler from textual programs to relocatable objects, a linker that
//! merges objects into a flat binary, and a cycle-stepping emulator that
//! executes that binary and reports the memory addresses each step touched,
//! so that a host can implement memory-mapped devices.
//!
//! Every operation is specified: instruction encoding and decoding round
//! trip, the emulator's fetch-decode-execute transition is a function of
//! the machine state, object files parse back to what was written, and
//! label resolution is exact about which labels resolve and which fail.

pub mod isa;
pub mod emu;
pub mod obj;
pub mod assembler;
pub mod util;

pub use isa::Instruction;
pub use isa::Opcode;
pub use isa::Register;
