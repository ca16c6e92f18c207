//! Verified core of a 16-bit DOS disassembler and annotation database.
pub mod dis;
pub mod function;
pub mod insn;
pub mod order;
pub mod segofs;
pub mod text;
pub mod xref;
pub mod db;
pub mod ir;
pub mod eval;
pub mod fnfile;
pub mod web;
pub mod ai;
pub mod crawl;
pub mod load;
