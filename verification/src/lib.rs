//! Bytecode representation for a stack-based virtual machine: a constant
//! pool interning numeric literals under stable keys, a tagged instruction
//! set, a run-length-encoded source-line index with binary-search lookup,
//! and a deterministic disassembler.

pub mod chunk;
pub mod disasm;
pub mod opcode;
pub mod pool;
pub mod text;
pub mod value;

pub use chunk::Chunk;
pub use opcode::OpCode;
pub use pool::Constants;
pub use pool::PoolError;
pub use value::Value;
