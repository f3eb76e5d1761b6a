//! Value model, symbol table and packet facts of a network-filter description runtime.
pub mod value;
pub mod order;
pub mod collections;
pub mod symbol_table;
pub mod packet_info;
