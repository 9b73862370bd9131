//! Parsers and decoders for the file formats found in Wii disc banners:
//! U8 archives, IMD5/LZ77 payloads, BRLYT layouts, BRLAN animations,
//! TPL textures, the disc partition table, GameTDB title lookup and
//! Wiimote input reports.
use vstd::prelude::*;

pub mod bytes;
pub mod text;
pub mod u8_archive;
pub mod unwrap_bin;
pub mod unwrap_bnr;
pub mod brlyt;
pub mod brlan;
pub mod game_info;
pub mod wiimote;
pub mod tpl;
pub mod disc;
