//! `opening.bnr`: the IMET header and the U8 archive stored from 0x600 on.
use vstd::prelude::*;
use crate::bytes::{be16_at, be32_at, be_u16_at, be_u32_at};
use crate::text::{chars_of, eq_ignore_case, eq_ci};
use crate::u8_archive::{
    name_at, name_at_spec, nodes_view, walk_spec, walk_u8, NameFailure, NodeView, U8Layout, U8Walk,
    U8WalkError,
};

verus! {

/// Offset of the U8 archive inside `opening.bnr`.
pub const BNR_U8_START: u64 = 0x600;

/// Where an extracted `.bin` payload was written.
pub struct BinLocation {
    pub bin_path: String,
}

/// Why `opening.bnr` could not be read.
#[derive(Debug, PartialEq, Eq)]
pub enum BnrError {
    FileTooSmall,
    ImetNotFound,
    U8MagicMismatch { found_magic: u32 },
    OutOfBoundsU32 { offset: u64 },
    OutOfBoundsU16 { offset: u64 },
    MissingNulTerminator { offset: u64 },
    InvalidUtf8 { offset: u64, detail: String },
    RootNotDirectory { root_type: u16 },
    ZeroNodes,
    InvalidHeaderBounds,
}

/// The big-endian `u32` at `offset`, when four bytes are there.
pub open spec fn bnr_u32_spec(data: Seq<u8>, offset: int) -> Result<u32, BnrError> {
    if offset + 4 <= data.len() {
        Ok(be32_at(data, offset) as u32)
    } else {
        Err(BnrError::OutOfBoundsU32 { offset: offset as u64 })
    }
}

/// The big-endian `u16` at `offset`, when two bytes are there.
pub open spec fn bnr_u16_spec(data: Seq<u8>, offset: int) -> Result<u16, BnrError> {
    if offset + 2 <= data.len() {
        Ok(be16_at(data, offset) as u16)
    } else {
        Err(BnrError::OutOfBoundsU16 { offset: offset as u64 })
    }
}

/// Reads the big-endian `u32` at `offset`.
pub fn read_u32_be(data: &[u8], offset: u64) -> (r: Result<u32, BnrError>)
    ensures
        r == bnr_u32_spec(data@, offset as int),
{
    let len = data.len() as u64;
    if offset <= len && len - offset >= 4 {
        Ok(be_u32_at(data, offset as usize))
    } else {
        Err(BnrError::OutOfBoundsU32 { offset })
    }
}

/// Reads the big-endian `u16` at `offset`.
pub fn read_u16_be(data: &[u8], offset: u64) -> (r: Result<u16, BnrError>)
    ensures
        r == bnr_u16_spec(data@, offset as int),
{
    let len = data.len() as u64;
    if offset <= len && len - offset >= 2 {
        Ok(be_u16_at(data, offset as usize))
    } else {
        Err(BnrError::OutOfBoundsU16 { offset })
    }
}

/// Reads the NUL-terminated UTF-8 string at `offset` (which must not lie
/// past the end of `data`).
pub fn cstring_at(data: &[u8], offset: usize) -> (r: Result<String, BnrError>)
    requires
        offset <= data@.len(),
    ensures
        match name_at_spec(data@, offset as int) {
            Ok(s) => r matches Ok(n) && n@ == s,
            Err(NameFailure::InvalidUtf8 { detail }) => r matches Err(BnrError::InvalidUtf8 { offset: o, detail: d })
                && o == offset && d@ == detail,
            Err(_) => r == Err::<String, BnrError>(
                BnrError::MissingNulTerminator { offset: offset as u64 },
            ),
        },
{
    match name_at(data, offset as u64) {
        Ok(s) => Ok(s),
        Err(U8WalkError::InvalidUtf8 { offset, detail }) => Err(BnrError::InvalidUtf8 { offset, detail }),
        Err(_) => Err(BnrError::MissingNulTerminator { offset: offset as u64 }),
    }
}

/// Layout of the U8 archive inside `opening.bnr`.
pub open spec fn bnr_layout_spec(file: Seq<u8>) -> Result<U8Layout, BnrError> {
    if file.len() < 0x604 {
        Err(BnrError::FileTooSmall)
    } else if !(file[0x40] == 0x49 && file[0x41] == 0x4D && file[0x42] == 0x45 && file[0x43] == 0x54) {
        Err(BnrError::ImetNotFound)
    } else if be32_at(file, 0x600) != 0x55AA382D {
        Err(BnrError::U8MagicMismatch { found_magic: be32_at(file, 0x600) as u32 })
    } else {
        match (bnr_u32_spec(file, 0x604), bnr_u32_spec(file, 0x608), bnr_u32_spec(file, 0x60C)) {
            (Err(e), _, _) => Err(e),
            (Ok(_), Err(e), _) => Err(e),
            (Ok(_), Ok(_), Err(e)) => Err(e),
            (Ok(root), Ok(header_size), Ok(_)) => {
                let root_abs = 0x600 + root;
                match bnr_u16_spec(file, root_abs) {
                    Err(e) => Err(e),
                    Ok(root_type) => if root_type != 0x0100 {
                        Err(BnrError::RootNotDirectory { root_type })
                    } else {
                        match bnr_u32_spec(file, root_abs + 8) {
                            Err(e) => Err(e),
                            Ok(total) => if total == 0 {
                                Err(BnrError::ZeroNodes)
                            } else if root_abs + total * 12 > file.len() || 0x600 + root
                                + header_size > file.len() {
                                Err(BnrError::InvalidHeaderBounds)
                            } else {
                                Ok(
                                    U8Layout {
                                        data_base: 0x600,
                                        rootnode_abs: root_abs as u64,
                                        total_nodes: total as u64,
                                        string_table_abs: (root_abs + total * 12) as u64,
                                    },
                                )
                            },
                        }
                    },
                }
            },
        }
    }
}

/// Checks the IMET and U8 headers of `opening.bnr` and locates the node table.
pub fn bnr_layout(file: &[u8]) -> (r: Result<U8Layout, BnrError>)
    ensures
        r == bnr_layout_spec(file@),
        r matches Ok(l) ==> l.wf(file@.len() as int),
{
    if file.len() < 0x604 {
        return Err(BnrError::FileTooSmall);
    }
    if !(file[0x40] == 0x49 && file[0x41] == 0x4D && file[0x42] == 0x45 && file[0x43] == 0x54) {
        return Err(BnrError::ImetNotFound);
    }
    let u8_magic = be_u32_at(file, 0x600);
    if u8_magic != 0x55AA382D {
        return Err(BnrError::U8MagicMismatch { found_magic: u8_magic });
    }
    let rootnode_offset = read_u32_be(file, 0x604)?;
    let header_size = read_u32_be(file, 0x608)?;
    let _data_offset = read_u32_be(file, 0x60C)?;
    let rootnode_abs: u64 = BNR_U8_START + rootnode_offset as u64;
    let root_type = read_u16_be(file, rootnode_abs)?;
    if root_type != 0x0100 {
        return Err(BnrError::RootNotDirectory { root_type });
    }
    let total_nodes = read_u32_be(file, rootnode_abs + 8)?;
    if total_nodes == 0 {
        return Err(BnrError::ZeroNodes);
    }
    let string_table_abs: u64 = rootnode_abs + total_nodes as u64 * 12;
    let header_end_abs: u64 = BNR_U8_START + rootnode_offset as u64 + header_size as u64;
    let len = file.len() as u64;
    if string_table_abs > len || header_end_abs > len {
        return Err(BnrError::InvalidHeaderBounds);
    }
    Ok(
        U8Layout {
            data_base: BNR_U8_START,
            rootnode_abs,
            total_nodes: total_nodes as u64,
            string_table_abs,
        },
    )
}

/// Whether a file of this name is one of the banner parts that get reported
/// (`banner.bin`, `icon.bin`, `sound.bin`, ignoring ASCII case).
pub open spec fn is_banner_part_spec(name: Seq<char>) -> bool {
    eq_ci(name, "banner.bin"@) || eq_ci(name, "icon.bin"@) || eq_ci(name, "sound.bin"@)
}

/// Whether a file of this name is one of the reported banner parts.
pub fn is_banner_part(name: &str) -> (r: bool)
    ensures
        r == is_banner_part_spec(name@),
{
    let n = chars_of(name);
    let a = chars_of("banner.bin");
    let b = chars_of("icon.bin");
    let c = chars_of("sound.bin");
    eq_ignore_case(n.as_slice(), a.as_slice()) || eq_ignore_case(n.as_slice(), b.as_slice())
        || eq_ignore_case(n.as_slice(), c.as_slice())
}

/// The archive of `opening.bnr`: its entries, the positions among them of
/// the reported banner parts, and the error that stopped the walk.
#[derive(Debug)]
pub struct BnrPlan {
    pub walk: U8Walk,
    pub located: Vec<usize>,
}

/// Positions `k` of the file entries named like a banner part, in order.
pub open spec fn located_spec(nodes: Seq<NodeView>) -> Seq<usize>
    decreases nodes.len(),
{
    if nodes.len() == 0 {
        Seq::empty()
    } else {
        let rest = located_spec(nodes.drop_last());
        let k = nodes.len() - 1;
        if !nodes[k].is_dir && is_banner_part_spec(nodes[k].name) {
            rest.push(k as usize)
        } else {
            rest
        }
    }
}

/// Reads `opening.bnr`: checks its headers, walks its archive, and marks
/// the banner parts among the files.
pub fn plan_opening_bnr(file: &[u8]) -> (r: Result<BnrPlan, BnrError>)
    ensures
        match bnr_layout_spec(file@) {
            Err(e) => r == Err::<BnrPlan, BnrError>(e),
            Ok(lay) => r matches Ok(p) && (nodes_view(p.walk.nodes@), crate::u8_archive::error_view(
                p.walk.error,
            )) == walk_spec(file@, lay) && p.located@ == located_spec(nodes_view(p.walk.nodes@)),
        },
{
    let lay = bnr_layout(file)?;
    let walk = walk_u8(file, &lay);
    let mut located: Vec<usize> = Vec::new();
    let mut k: usize = 0;
    while k < walk.nodes.len()
        invariant
            k <= walk.nodes@.len(),
            located@ == located_spec(nodes_view(walk.nodes@.subrange(0, k as int))),
        decreases walk.nodes.len() - k,
    {
        let node = &walk.nodes[k];
        let is_file = match node.kind {
            crate::u8_archive::U8NodeKind::File { .. } => true,
            _ => false,
        };
        proof {
            let s = nodes_view(walk.nodes@.subrange(0, k + 1));
            assert(s.drop_last() =~= nodes_view(walk.nodes@.subrange(0, k as int)));
            assert(s[k as int] == node@);
        }
        if is_file && is_banner_part(node.name.as_str()) {
            located.push(k);
        }
        k = k + 1;
    }
    assert(walk.nodes@.subrange(0, walk.nodes@.len() as int) =~= walk.nodes@);
    Ok(BnrPlan { walk, located })
}

} // verus!
