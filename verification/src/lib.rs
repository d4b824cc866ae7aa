//! A compiler for a small macro-based assembly language for a liquidity-pool
//! virtual machine: a lexer, a macro-expanding assembler, and a binary code
//! generator that packs each instruction into a fixed-layout byte record.

pub mod assembler;
pub mod codegen;
pub mod error;
pub mod opcode;
pub mod token;
pub mod uint256;
