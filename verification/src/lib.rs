//! Tools for the data formats of a Nintendo DS game: LZ10 and backwards-LZ
//! compression, `.bbq` script files, `.bin`/`.idx` archives, `.gld` images and
//! `.nds` rom layouts.
use vstd::prelude::*;

pub mod bytes;
pub mod lz10;
pub mod blz;
pub mod sjis;
pub mod text;
pub mod bbq;
pub mod bbq_read;
pub mod script;
pub mod yaml;
pub mod yaml_read;
pub mod ez;
pub mod gld;
pub mod nds_tree;
pub mod nds_rom;
pub mod modcrypt;
pub mod nds_build;
pub mod exec_strings;
pub mod roundtrip;
pub mod pictures;
pub mod csv_rows;
pub mod node_order;
pub mod gld_checks;
pub mod byte_roundtrip;
pub mod archive_roundtrip;
pub mod blz_roundtrip;
pub mod fnt_roundtrip;
pub mod nds_write;
pub mod rom_roundtrip;
pub mod exec_pack;

verus! {
} // verus!
