//! Decoders for the GMD string-table and ITM item-catalog binary formats,
//! and the positional linker that names items from a string table.

pub mod cursor;
pub mod gmd;
pub mod itm;
