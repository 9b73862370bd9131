//! BRLYT banner layouts: textures, materials, the pane tree, and the
//! binding of picture panes to the textures their materials use.
use vstd::prelude::*;
use vstd::utf8::{decode_utf8, valid_utf8};
use crate::bytes::{as_i16, be16_at, be32_at, be_i16_at, be_u16_at, be_u32_at};
use crate::text::{
    chars_of, ends_with, ends_with_chars, file_stem, hex_char, text_of, lower_all, lower_chars,
    path_file_stem, push_chars, push_str, safe_stem_spec, safe_stem_with, slice_range, str_eq,
    string_from_chars, trim_chars, trim_nul, trim_nul_chars, trim_ws, utf8_lossy, utf8_strict,
};
use crate::u8_archive::first_nul;

verus! {

/// A texture named by the `txl1` chunk.
#[derive(Debug)]
pub struct TextureEntry {
    pub index: usize,
    pub name: String,
    pub png_candidate: String,
}

/// A texture entry as values.
pub struct TextureView {
    pub index: int,
    pub name: Seq<char>,
    pub png_candidate: Seq<char>,
}

impl View for TextureEntry {
    type V = TextureView;

    open spec fn view(&self) -> TextureView {
        TextureView { index: self.index as int, name: self.name@, png_candidate: self.png_candidate@ }
    }
}

/// Text of an optional string.
pub open spec fn opt_str(o: Option<String>) -> Option<Seq<char>> {
    match o {
        Some(s) => Some(s@),
        None => None,
    }
}

/// A texture map of a material.
#[derive(Debug)]
pub struct TextureMapEntry {
    pub texture_id: u16,
    pub settings: u16,
    pub texture_name: Option<String>,
    pub png_candidate: Option<String>,
}

/// A texture map as values.
pub struct TextureMapView {
    pub texture_id: u16,
    pub settings: u16,
    pub texture_name: Option<Seq<char>>,
    pub png_candidate: Option<Seq<char>>,
}

impl View for TextureMapEntry {
    type V = TextureMapView;

    open spec fn view(&self) -> TextureMapView {
        TextureMapView {
            texture_id: self.texture_id,
            settings: self.settings,
            texture_name: opt_str(self.texture_name),
            png_candidate: opt_str(self.png_candidate),
        }
    }
}

/// A material of the `mat1` chunk.
#[derive(Debug)]
pub struct MaterialEntry {
    pub index: usize,
    pub name: String,
    pub offset_in_mat1: usize,
    pub fore_color: [i16; 4],
    pub back_color: [i16; 4],
    pub color_reg_3: [i16; 4],
    pub tev_colors: [[u8; 4]; 4],
    pub flags: u32,
    pub has_material_color: bool,
    pub has_channel_control: bool,
    pub has_blend_mode: bool,
    pub has_alpha_compare: bool,
    pub tev_stage_count: usize,
    pub indirect_stage_count: usize,
    pub indirect_matrix_count: usize,
    pub has_tev_swap_table: bool,
    pub tex_coord_gen_count: usize,
    pub texture_srt_count: usize,
    pub texture_map_count: usize,
    pub texture_maps: Vec<TextureMapEntry>,
    pub texture_indices: Vec<usize>,
    pub texture_names: Vec<String>,
}

/// A material as values.
pub struct MaterialView {
    pub index: int,
    pub name: Seq<char>,
    pub offset_in_mat1: int,
    pub fore_color: [i16; 4],
    pub back_color: [i16; 4],
    pub color_reg_3: [i16; 4],
    pub tev_colors: [[u8; 4]; 4],
    pub flags: u32,
    pub has_material_color: bool,
    pub has_channel_control: bool,
    pub has_blend_mode: bool,
    pub has_alpha_compare: bool,
    pub tev_stage_count: int,
    pub indirect_stage_count: int,
    pub indirect_matrix_count: int,
    pub has_tev_swap_table: bool,
    pub tex_coord_gen_count: int,
    pub texture_srt_count: int,
    pub texture_map_count: int,
    pub texture_maps: Seq<TextureMapView>,
    pub texture_indices: Seq<usize>,
    pub texture_names: Seq<Seq<char>>,
}

impl View for MaterialEntry {
    type V = MaterialView;

    open spec fn view(&self) -> MaterialView {
        MaterialView {
            index: self.index as int,
            name: self.name@,
            offset_in_mat1: self.offset_in_mat1 as int,
            fore_color: self.fore_color,
            back_color: self.back_color,
            color_reg_3: self.color_reg_3,
            tev_colors: self.tev_colors,
            flags: self.flags,
            has_material_color: self.has_material_color,
            has_channel_control: self.has_channel_control,
            has_blend_mode: self.has_blend_mode,
            has_alpha_compare: self.has_alpha_compare,
            tev_stage_count: self.tev_stage_count as int,
            indirect_stage_count: self.indirect_stage_count as int,
            indirect_matrix_count: self.indirect_matrix_count as int,
            has_tev_swap_table: self.has_tev_swap_table,
            tex_coord_gen_count: self.tex_coord_gen_count as int,
            texture_srt_count: self.texture_srt_count as int,
            texture_map_count: self.texture_map_count as int,
            texture_maps: self.texture_maps@.map_values(|m: TextureMapEntry| m@),
            texture_indices: self.texture_indices@,
            texture_names: self.texture_names.deep_view(),
        }
    }
}

/// A pane of the layout. The geometry fields hold IEEE-754 single-precision
/// bit patterns as stored in the file.
#[derive(Debug)]
pub struct Pane {
    pub name: String,
    pub user_data: String,
    pub visible: bool,
    pub width: u32,
    pub height: u32,
    pub x: u32,
    pub y: u32,
    pub z: u32,
    pub scale_x: u32,
    pub scale_y: u32,
    pub rot_x: u32,
    pub rot_y: u32,
    pub rot_z: u32,
    pub alpha: u8,
    pub kind: String,
    pub material_index: Option<u16>,
    pub material_name: Option<String>,
    pub texture_name: Option<String>,
    pub png_candidate: Option<String>,
    pub top_left_color: Option<[u8; 4]>,
    pub top_right_color: Option<[u8; 4]>,
    pub bottom_left_color: Option<[u8; 4]>,
    pub bottom_right_color: Option<[u8; 4]>,
    pub uv_sets: Vec<[u32; 4]>,
    pub children: Vec<Pane>,
}

/// A pane as values.
pub struct PaneView {
    pub name: Seq<char>,
    pub user_data: Seq<char>,
    pub visible: bool,
    pub width: u32,
    pub height: u32,
    pub x: u32,
    pub y: u32,
    pub z: u32,
    pub scale_x: u32,
    pub scale_y: u32,
    pub rot_x: u32,
    pub rot_y: u32,
    pub rot_z: u32,
    pub alpha: u8,
    pub kind: Seq<char>,
    pub material_index: Option<u16>,
    pub material_name: Option<Seq<char>>,
    pub texture_name: Option<Seq<char>>,
    pub png_candidate: Option<Seq<char>>,
    pub top_left_color: Option<[u8; 4]>,
    pub top_right_color: Option<[u8; 4]>,
    pub bottom_left_color: Option<[u8; 4]>,
    pub bottom_right_color: Option<[u8; 4]>,
    pub uv_sets: Seq<[u32; 4]>,
    pub children: Seq<PaneView>,
}

/// The view of a pane and, recursively, of its children.
pub open spec fn pane_view(p: Pane) -> PaneView
    decreases p, 1int,
{
    PaneView {
        name: p.name@,
        user_data: p.user_data@,
        visible: p.visible,
        width: p.width,
        height: p.height,
        x: p.x,
        y: p.y,
        z: p.z,
        scale_x: p.scale_x,
        scale_y: p.scale_y,
        rot_x: p.rot_x,
        rot_y: p.rot_y,
        rot_z: p.rot_z,
        alpha: p.alpha,
        kind: p.kind@,
        material_index: p.material_index,
        material_name: opt_str(p.material_name),
        texture_name: opt_str(p.texture_name),
        png_candidate: opt_str(p.png_candidate),
        top_left_color: p.top_left_color,
        top_right_color: p.top_right_color,
        bottom_left_color: p.bottom_left_color,
        bottom_right_color: p.bottom_right_color,
        uv_sets: p.uv_sets@,
        children: panes_view_of(p.children),
    }
}

/// The views of the panes held by `v`.
pub open spec fn panes_view_of(v: Vec<Pane>) -> Seq<PaneView>
    decreases v, 0int,
{
    panes_view(v@)
}

/// The views of a list of panes.
pub open spec fn panes_view(s: Seq<Pane>) -> Seq<PaneView>
    decreases s, 2int,
{
    if s.len() == 0 {
        Seq::empty()
    } else {
        panes_view(s.drop_last()).push(pane_view(s.last()))
    }
}

impl View for Pane {
    type V = PaneView;

    open spec fn view(&self) -> PaneView {
        pane_view(*self)
    }
}

// ---------------------------------------------------------------------------
// Field readers.
// ---------------------------------------------------------------------------

/// Why a layout could not be read.
#[derive(Debug, PartialEq, Eq, Clone, Copy)]
pub enum BrlytError {
    /// Shorter than 16 bytes, or without the "RLYT" magic.
    NotBrlyt,
    /// A read ran past the end of a chunk.
    UnexpectedEof,
    /// A `pic1` chunk shorter than 0x54 bytes.
    Pic1TooSmall,
}

/// Index of the first NUL at or after `i`, or the end of `data`.
pub open spec fn nul_or_end(data: Seq<u8>, i: int) -> int {
    match first_nul(data, i) {
        Some(e) => e,
        None => data.len() as int,
    }
}

/// Finds the first NUL at or after `start`, or the end.
pub fn find_nul(data: &[u8], start: usize) -> (r: usize)
    requires
        start <= data@.len(),
    ensures
        r as int == nul_or_end(data@, start as int),
        start <= r <= data@.len(),
{
    let len = data.len();
    let mut e = start;
    while e < len && data[e] != 0
        invariant
            start <= e <= len,
            len == data@.len(),
            first_nul(data@, e as int) == first_nul(data@, start as int),
        decreases len - e,
    {
        e = e + 1;
    }
    e
}

/// Text of a fixed-size field: up to the first NUL, decoded leniently,
/// whitespace trimmed.
pub open spec fn fixed_string_spec(data: Seq<u8>) -> Seq<char> {
    trim_ws(text_of(data.subrange(0, nul_or_end(data, 0))))
}

/// Reads the text of a fixed-size field.
pub fn read_fixed_string(data: &[u8]) -> (r: String)
    ensures
        r@ == fixed_string_spec(data@),
{
    let end = find_nul(data, 0);
    let raw = utf8_lossy(&data[0..end]);
    let chars = chars_of(raw.as_str());
    let t = trim_chars(chars.as_slice());
    string_from_chars(t.as_slice())
}

/// Four big-endian `i16` values at `off`, when 8 bytes are there.
pub open spec fn i16x4_spec(data: Seq<u8>, off: int) -> Option<[i16; 4]> {
    if off + 8 > data.len() {
        None
    } else {
        Some(
            [
                as_i16(be16_at(data, off)) as i16,
                as_i16(be16_at(data, off + 2)) as i16,
                as_i16(be16_at(data, off + 4)) as i16,
                as_i16(be16_at(data, off + 6)) as i16,
            ],
        )
    }
}

/// Reads four big-endian `i16` values at `off`.
pub fn read_i16x4_be(data: &[u8], off: usize) -> (r: Option<[i16; 4]>)
    ensures
        r == i16x4_spec(data@, off as int),
{
    let len = data.len();
    if off > len || len - off < 8 {
        return None;
    }
    let a = be_i16_at(data, off);
    let b = be_i16_at(data, off + 2);
    let c = be_i16_at(data, off + 4);
    let d = be_i16_at(data, off + 6);
    Some([a, b, c, d])
}

/// Four bytes at `off`, when they are there.
pub open spec fn u8x4_spec(data: Seq<u8>, off: int) -> Option<[u8; 4]> {
    if off + 4 > data.len() {
        None
    } else {
        Some([data[off], data[off + 1], data[off + 2], data[off + 3]])
    }
}

/// Reads four bytes at `off`.
pub fn read_u8x4(data: &[u8], off: usize) -> (r: Option<[u8; 4]>)
    ensures
        r == u8x4_spec(data@, off as int),
{
    let len = data.len();
    if off > len || len - off < 4 {
        return None;
    }
    Some([data[off], data[off + 1], data[off + 2], data[off + 3]])
}

/// The big-endian `u32` at `off`, when four bytes are there.
pub open spec fn u32_at_opt(data: Seq<u8>, off: int) -> Option<u32> {
    if off + 4 > data.len() {
        None
    } else {
        Some(be32_at(data, off) as u32)
    }
}

/// Reads the big-endian `u32` at `off`.
pub fn read_u32_be_at(data: &[u8], off: usize) -> (r: Option<u32>)
    ensures
        r == u32_at_opt(data@, off as int),
{
    let len = data.len();
    if off > len || len - off < 4 {
        return None;
    }
    Some(be_u32_at(data, off))
}

/// The bytes a preview of `len` bytes from `start` shows.
pub open spec fn preview_bytes(data: Seq<u8>, start: int, len: int) -> Seq<u8> {
    if start >= data.len() {
        Seq::empty()
    } else if start + len > data.len() {
        data.subrange(start, data.len() as int)
    } else {
        data.subrange(start, start + len)
    }
}

/// Two upper-case hex digits of a byte.
pub open spec fn hex_byte(b: u8) -> Seq<char> {
    seq![hex_char((b / 16) as int), hex_char((b % 16) as int)]
}

/// Bytes as upper-case hex pairs separated by single spaces.
pub open spec fn hex_join(s: Seq<u8>) -> Seq<char>
    decreases s.len(),
{
    if s.len() == 0 {
        Seq::empty()
    } else if s.len() == 1 {
        hex_byte(s[0])
    } else {
        hex_join(s.drop_last()) + seq![' '] + hex_byte(s.last())
    }
}

/// The copy of `data[start..end]` that a preview shows.
fn preview_slice(data: &[u8], start: usize, len: usize) -> (r: Vec<u8>)
    ensures
        r@ == preview_bytes(data@, start as int, len as int),
{
    let n = data.len();
    if start >= n {
        return Vec::new();
    }
    let end = if n - start < len { n } else { start + len };
    slice_range(data, start, end)
}

/// Hex dump of up to `len` bytes from `start` ("0A 1B ...").
pub fn hex_preview(data: &[u8], start: usize, len: usize) -> (r: String)
    ensures
        r@ == hex_join(preview_bytes(data@, start as int, len as int)),
{
    let bytes = preview_slice(data, start, len);
    let mut out: Vec<char> = Vec::new();
    let mut i: usize = 0;
    while i < bytes.len()
        invariant
            i <= bytes@.len(),
            out@ == hex_join(bytes@.subrange(0, i as int)),
        decreases bytes.len() - i,
    {
        let b = bytes[i];
        if i > 0 {
            out.push(' ');
        }
        out.push(crate::text::hex_digit(b / 16));
        out.push(crate::text::hex_digit(b % 16));
        proof {
            let t = bytes@.subrange(0, i + 1);
            assert(t.drop_last() =~= bytes@.subrange(0, i as int));
            assert(t.last() == b);
        }
        i = i + 1;
        assert(out@ =~= hex_join(bytes@.subrange(0, i as int)));
    }
    assert(bytes@.subrange(0, bytes@.len() as int) =~= bytes@);
    string_from_chars(out.as_slice())
}

/// The character an ASCII preview shows for a byte: printable ASCII and
/// space stay, anything else is `.`.
pub open spec fn ascii_shown(b: u8) -> char {
    if 0x20 <= b && b <= 0x7E { b as char } else { '.' }
}

/// ASCII view of up to `len` bytes from `start`.
pub fn ascii_preview(data: &[u8], start: usize, len: usize) -> (r: String)
    ensures
        r@ == preview_bytes(data@, start as int, len as int).map_values(|b: u8| ascii_shown(b)),
{
    let bytes = preview_slice(data, start, len);
    let mut out: Vec<char> = Vec::new();
    let mut i: usize = 0;
    while i < bytes.len()
        invariant
            i <= bytes@.len(),
            out@ == bytes@.subrange(0, i as int).map_values(|b: u8| ascii_shown(b)),
        decreases bytes.len() - i,
    {
        let b = bytes[i];
        let c = if 0x20 <= b && b <= 0x7E { crate::text::char_from_ascii(b as u32) } else { '.' };
        out.push(c);
        i = i + 1;
        assert(out@ =~= bytes@.subrange(0, i as int).map_values(|b: u8| ascii_shown(b)));
    }
    assert(bytes@.subrange(0, bytes@.len() as int) =~= bytes@);
    string_from_chars(out.as_slice())
}

/// File name for the layout's JSON: the stem of `path` ("layout" when it
/// has none) with characters outside `[A-Za-z0-9_-]` replaced by `_`.
pub fn safe_stem(path: &str) -> (r: String)
    ensures
        r@ == safe_stem_spec(path@, "layout"@),
{
    safe_stem_with(path, "layout")
}

/// The PNG file a texture is expected to be converted to: `.tpl` and
/// `.tex0` names (any ASCII case) lose their extension, then `.png` is added.
pub open spec fn png_candidate_spec(name: Seq<char>) -> Seq<char> {
    if ends_with(lower_all(name), ".tpl"@) || ends_with(lower_all(name), ".tex0"@) {
        let stem = match path_file_stem(name) {
            Some(s) => s,
            None => name,
        };
        stem + ".png"@
    } else {
        name + ".png"@
    }
}

/// The PNG file a texture is expected to be converted to.
pub fn texture_to_png_candidate(name: &str) -> (r: String)
    ensures
        r@ == png_candidate_spec(name@),
{
    let chars = chars_of(name);
    let lower = lower_chars(chars.as_slice());
    let tpl = chars_of(".tpl");
    let tex0 = chars_of(".tex0");
    let mut out = if ends_with_chars(lower.as_slice(), tpl.as_slice()) || ends_with_chars(
        lower.as_slice(),
        tex0.as_slice(),
    ) {
        match file_stem(name) {
            Some(stem) => stem,
            None => string_from_chars(chars.as_slice()),
        }
    } else {
        string_from_chars(chars.as_slice())
    };
    push_str(&mut out, ".png");
    out
}

/// The leniently decoded text from `off` up to the next NUL (or the end),
/// when `off` lies inside `data`.
pub open spec fn c_string_spec(data: Seq<u8>, off: int) -> Option<Seq<char>> {
    if off >= data.len() {
        None
    } else {
        Some(text_of(data.subrange(off, nul_or_end(data, off))))
    }
}

/// Reads the NUL-terminated text at `off`.
pub fn read_c_string_at(chunk: &[u8], off: usize) -> (r: Option<String>)
    ensures
        opt_str(r) == c_string_spec(chunk@, off as int),
{
    if off >= chunk.len() {
        return None;
    }
    let end = find_nul(chunk, off);
    Some(utf8_lossy(&chunk[off..end]))
}

// ---------------------------------------------------------------------------
// txl1: texture names.
// ---------------------------------------------------------------------------

/// Name offsets listed by a `txl1` chunk, or `None` when the list is cut
/// short (then the chunk yields no textures).
pub open spec fn txl1_offsets(chunk: Seq<u8>) -> Option<Seq<int>> {
    if chunk.len() < 10 {
        None
    } else {
        let count = be16_at(chunk, 8);
        if count > 0 && 12 + 8 * (count - 1) + 4 > chunk.len() {
            None
        } else {
            Some(Seq::new(count as nat, |k: int| be32_at(chunk, 12 + 8 * k)))
        }
    }
}

/// Textures named by the first `n` offsets: each offset counts from 0x0C,
/// and offsets that lead outside the chunk or to an empty name are skipped.
pub open spec fn txl1_entries(chunk: Seq<u8>, offs: Seq<int>, n: int) -> Seq<TextureView>
    decreases n,
{
    if n <= 0 {
        Seq::empty()
    } else {
        let prev = txl1_entries(chunk, offs, n - 1);
        match c_string_spec(chunk, 0x0C + offs[n - 1]) {
            Some(name) => if name.len() > 0 {
                prev.push(TextureView { index: n - 1, name, png_candidate: png_candidate_spec(name) })
            } else {
                prev
            },
            None => prev,
        }
    }
}

/// The textures a `txl1` chunk names.
pub open spec fn txl1_spec(chunk: Seq<u8>) -> Seq<TextureView> {
    match txl1_offsets(chunk) {
        None => Seq::empty(),
        Some(offs) => txl1_entries(chunk, offs, offs.len() as int),
    }
}

/// Views of a list of textures.
pub open spec fn textures_view(v: Seq<TextureEntry>) -> Seq<TextureView> {
    v.map_values(|t: TextureEntry| t@)
}

/// Reads the texture names of a `txl1` chunk.
pub fn parse_txl1(chunk_data: &[u8]) -> (r: Vec<TextureEntry>)
    ensures
        textures_view(r@) == txl1_spec(chunk_data@),
{
    let mut out: Vec<TextureEntry> = Vec::new();
    let len = chunk_data.len();
    if len < 10 {
        proof {
            assert(textures_view(out@) =~= Seq::<TextureView>::empty());
        }
        return out;
    }
    let count = be_u16_at(chunk_data, 8) as usize;
    let mut offsets: Vec<u32> = Vec::new();
    let mut k: usize = 0;
    while k < count
        invariant
            k <= count,
            len == chunk_data@.len(),
            len >= 10,
            count == be16_at(chunk_data@, 8),
            offsets@.len() == k,
            forall|j: int| 0 <= j < k ==> offsets@[j] as int == be32_at(chunk_data@, 12 + 8 * j),
            k > 0 ==> 12 + 8 * (k - 1) + 4 <= len,
            out@.len() == 0,
        decreases count - k,
    {
        if len < 16 || (len - 16) / 8 < k {
            proof {
                assert(12 + 8 * k + 4 > len);
                assert(12 + 8 * (count - 1) + 4 > len) by (nonlinear_arith)
                    requires
                        12 + 8 * k + 4 > len,
                        k < count,
                ;
                assert(textures_view(out@) =~= Seq::<TextureView>::empty());
            }
            return out;
        }
        offsets.push(be_u32_at(chunk_data, 12 + 8 * k));
        k = k + 1;
    }
    let ghost offs = Seq::new(count as nat, |j: int| be32_at(chunk_data@, 12 + 8 * j));
    proof {
        if count > 0 {
            assert(12 + 8 * (count - 1) + 4 <= len);
        }
        assert(txl1_offsets(chunk_data@) == Some(offs));
    }
    let mut index: usize = 0;
    while index < count
        invariant
            index <= count,
            count == offsets@.len(),
            offs.len() == count,
            len == chunk_data@.len(),
            forall|j: int| 0 <= j < count ==> offsets@[j] as int == #[trigger] offs[j],
            textures_view(out@) == txl1_entries(chunk_data@, offs, index as int),
        decreases count - index,
    {
        let off = offsets[index];
        let absolute: u64 = 0x0C + off as u64;
        let name = if absolute >= len as u64 {
            None
        } else {
            read_c_string_at(chunk_data, absolute as usize)
        };
        proof {
            assert(offs[index as int] == off as int);
        }
        match name {
            Some(name) => {
                if !name.as_str().is_empty() {
                    let png_candidate = texture_to_png_candidate(name.as_str());
                    let ghost before = out@;
                    out.push(TextureEntry { index, name, png_candidate });
                    proof {
                        assert(textures_view(out@) =~= textures_view(before).push(out@.last()@));
                    }
                }
            },
            None => {},
        }
        index = index + 1;
    }
    out
}

/// Every texture a `txl1` chunk yields has a name, and the indices are
/// increasing positions in the chunk's list.
pub proof fn law_txl1_entries_named_and_ordered(chunk: Seq<u8>)
    ensures
        ({
            let t = txl1_spec(chunk);
            &&& forall|k: int| 0 <= k < t.len() ==> (#[trigger] t[k]).name.len() > 0
            &&& forall|a: int, b: int| 0 <= a < b < t.len() ==> (#[trigger] t[a]).index < (#[trigger] t[b]).index
            &&& forall|k: int| 0 <= k < t.len() ==> 0 <= (#[trigger] t[k]).index < be16_at(chunk, 8)
        }),
{
    match txl1_offsets(chunk) {
        None => {},
        Some(offs) => {
            lemma_txl1_entries(chunk, offs, offs.len() as int);
        },
    }
}

proof fn lemma_txl1_entries(chunk: Seq<u8>, offs: Seq<int>, n: int)
    requires
        0 <= n <= offs.len(),
        chunk.len() >= 10,
        offs.len() == be16_at(chunk, 8),
    ensures
        ({
            let t = txl1_entries(chunk, offs, n);
            &&& forall|k: int| 0 <= k < t.len() ==> (#[trigger] t[k]).name.len() > 0
            &&& forall|a: int, b: int| 0 <= a < b < t.len() ==> (#[trigger] t[a]).index < (#[trigger] t[b]).index
            &&& forall|k: int| 0 <= k < t.len() ==> 0 <= (#[trigger] t[k]).index < n
        }),
    decreases n,
{
    if n > 0 {
        lemma_txl1_entries(chunk, offs, n - 1);
        let prev = txl1_entries(chunk, offs, n - 1);
        let t = txl1_entries(chunk, offs, n);
        if t.len() > prev.len() {
            assert(t == prev.push(t.last()));
            assert(t.last().index == n - 1);
            assert forall|a: int, b: int| 0 <= a < b < t.len() implies (#[trigger] t[a]).index < (
            #[trigger] t[b]).index by {
                if b < prev.len() {
                    assert(t[a] == prev[a] && t[b] == prev[b]);
                } else {
                    assert(t[a] == prev[a]);
                }
            }
            assert forall|k: int| 0 <= k < t.len() implies (#[trigger] t[k]).name.len() > 0 && 0 <= t[k].index < n by {
                if k < prev.len() {
                    assert(t[k] == prev[k]);
                }
            }
        }
    }
}

// ---------------------------------------------------------------------------
// mat1: materials.
// ---------------------------------------------------------------------------

/// The material offsets a `mat1` chunk lists: as many of the announced
/// entries as fit in the chunk.
pub open spec fn mat1_offsets(chunk: Seq<u8>) -> Seq<int> {
    if chunk.len() < 12 {
        Seq::empty()
    } else {
        let count = be16_at(chunk, 8);
        let avail = (chunk.len() - 12) / 4;
        let n = if count <= avail { count } else { avail };
        Seq::new(n as nat, |k: int| be32_at(chunk, 12 + 4 * k))
    }
}

/// Reads the offsets of a `mat1` chunk, with the announced count (0 when
/// the chunk is too short to hold it).
fn read_mat1_offsets(chunk: &[u8]) -> (r: (usize, Vec<u32>))
    ensures
        r.1@.len() == mat1_offsets(chunk@).len(),
        forall|j: int| 0 <= j < r.1@.len() ==> r.1@[j] as int == #[trigger] mat1_offsets(chunk@)[j],
        r.0 == (if chunk@.len() < 10 { 0 } else { be16_at(chunk@, 8) }),
{
    let len = chunk.len();
    let mut offsets: Vec<u32> = Vec::new();
    if len < 10 {
        return (0, offsets);
    }
    let count = be_u16_at(chunk, 8) as usize;
    if len < 12 {
        return (count, offsets);
    }
    let avail = (len - 12) / 4;
    let n = if count <= avail { count } else { avail };
    let mut k: usize = 0;
    while k < n
        invariant
            k <= n,
            n <= avail,
            avail == (len - 12) / 4,
            len == chunk@.len(),
            len >= 12,
            offsets@.len() == k,
            forall|j: int| 0 <= j < k ==> offsets@[j] as int == be32_at(chunk@, 12 + 4 * j),
        decreases n - k,
    {
        assert(12 + 4 * k + 4 <= len) by (nonlinear_arith)
            requires
                k < n,
                n <= avail,
                avail == (len - 12) / 4,
                len >= 12,
        ;
        let v = be_u32_at(chunk, 12 + 4 * k);
        offsets.push(v);
        k = k + 1;
    }
    (count, offsets)
}

/// The texture maps of a material: up to `count` four-byte records from
/// `start`, stopping at the end of the chunk.
pub open spec fn texture_maps_spec(chunk: Seq<u8>, start: int, count: int, textures: Seq<TextureView>) -> Seq<
    TextureMapView,
> {
    let avail = if start <= chunk.len() { (chunk.len() - start) / 4 } else { 0 };
    let n = if count <= avail { count } else { avail };
    Seq::new(
        n as nat,
        |j: int|
            {
                let id = be16_at(chunk, start + 4 * j);
                let name = if id < textures.len() { Some(textures[id].name) } else { None };
                TextureMapView {
                    texture_id: id as u16,
                    settings: be16_at(chunk, start + 4 * j + 2) as u16,
                    texture_name: name,
                    png_candidate: match name {
                        Some(n) => Some(png_candidate_spec(n)),
                        None => None,
                    },
                }
            },
    )
}

/// Names of the texture maps that have one, in order.
pub open spec fn map_names(maps: Seq<TextureMapView>) -> Seq<Seq<char>>
    decreases maps.len(),
{
    if maps.len() == 0 {
        Seq::empty()
    } else {
        let rest = map_names(maps.drop_last());
        match maps.last().texture_name {
            Some(n) => rest.push(n),
            None => rest,
        }
    }
}

/// Whether bit `shift` of `flags` is set.
pub open spec fn flag_bit(flags: u32, shift: u32) -> bool {
    (flags >> shift) & 1 != 0
}

/// The field of `flags` that starts at bit `shift` and is masked by `mask`.
pub open spec fn flag_field(flags: u32, shift: u32, mask: u32) -> int {
    ((flags >> shift) & mask) as int
}

/// The material stored at `base`, when its 0x40 fixed bytes fit in the chunk.
pub open spec fn material_spec(chunk: Seq<u8>, index: int, base: int, textures: Seq<TextureView>) -> Option<
    MaterialView,
> {
    if base + 0x40 > chunk.len() {
        None
    } else {
        let flags = be32_at(chunk, base + 0x3C) as u32;
        let maps = texture_maps_spec(chunk, base + 0x40, flag_field(flags, 0, 0xF), textures);
        Some(
            MaterialView {
                index,
                name: fixed_string_spec(chunk.subrange(base, base + 20)),
                offset_in_mat1: base,
                fore_color: i16x4_spec(chunk, base + 0x14).unwrap(),
                back_color: i16x4_spec(chunk, base + 0x1C).unwrap(),
                color_reg_3: i16x4_spec(chunk, base + 0x24).unwrap(),
                tev_colors: [
                    u8x4_spec(chunk, base + 0x2C).unwrap(),
                    u8x4_spec(chunk, base + 0x30).unwrap(),
                    u8x4_spec(chunk, base + 0x34).unwrap(),
                    u8x4_spec(chunk, base + 0x38).unwrap(),
                ],
                flags,
                has_material_color: flag_bit(flags, 30),
                has_channel_control: flag_bit(flags, 28),
                has_blend_mode: flag_bit(flags, 27),
                has_alpha_compare: flag_bit(flags, 23),
                tev_stage_count: flag_field(flags, 19, 0xF),
                indirect_stage_count: flag_field(flags, 17, 0x3),
                indirect_matrix_count: flag_field(flags, 15, 0x3),
                has_tev_swap_table: flag_bit(flags, 14),
                tex_coord_gen_count: flag_field(flags, 10, 0xF),
                texture_srt_count: flag_field(flags, 6, 0xF),
                texture_map_count: flag_field(flags, 0, 0xF),
                texture_maps: maps,
                texture_indices: maps.map_values(|m: TextureMapView| m.texture_id as usize),
                texture_names: map_names(maps),
            },
        )
    }
}

/// Materials at the first `n` offsets; offsets whose fixed part does not
/// fit are skipped.
pub open spec fn mat1_entries(chunk: Seq<u8>, offs: Seq<int>, n: int, textures: Seq<TextureView>) -> Seq<
    MaterialView,
>
    decreases n,
{
    if n <= 0 {
        Seq::empty()
    } else {
        let prev = mat1_entries(chunk, offs, n - 1, textures);
        match material_spec(chunk, n - 1, offs[n - 1], textures) {
            Some(m) => prev.push(m),
            None => prev,
        }
    }
}

/// The materials of a `mat1` chunk.
pub open spec fn mat1_spec(chunk: Seq<u8>, textures: Seq<TextureView>) -> Seq<MaterialView> {
    let offs = mat1_offsets(chunk);
    mat1_entries(chunk, offs, offs.len() as int, textures)
}

/// Views of a list of materials.
pub open spec fn materials_view(v: Seq<MaterialEntry>) -> Seq<MaterialView> {
    v.map_values(|m: MaterialEntry| m@)
}

/// Reads the texture maps of a material.
fn parse_texture_maps(chunk: &[u8], start: usize, count: usize, textures: &[TextureEntry]) -> (r: Vec<
    TextureMapEntry,
>)
    requires
        start <= chunk@.len(),
    ensures
        r@.map_values(|m: TextureMapEntry| m@) == texture_maps_spec(
            chunk@,
            start as int,
            count as int,
            textures_view(textures@),
        ),
{
    let len = chunk.len();
    let avail = (len - start) / 4;
    let n = if count <= avail { count } else { avail };
    let ghost tv = textures_view(textures@);
    let ghost full = texture_maps_spec(chunk@, start as int, count as int, tv);
    let mut maps: Vec<TextureMapEntry> = Vec::new();
    let mut j: usize = 0;
    while j < n
        invariant
            j <= n,
            n <= avail,
            avail == (len - start) / 4,
            start <= len,
            len == chunk@.len(),
            tv == textures_view(textures@),
            full == texture_maps_spec(chunk@, start as int, count as int, tv),
            full.len() == n,
            maps@.len() == j,
            forall|t: int| 0 <= t < j ==> (#[trigger] maps@[t])@ == full[t],
        decreases n - j,
    {
        assert(start + 4 * j + 4 <= len) by (nonlinear_arith)
            requires
                j < n,
                n <= avail,
                avail == (len - start) / 4,
                start <= len,
        ;
        let cursor = start + 4 * j;
        let texture_id = be_u16_at(chunk, cursor);
        let settings = be_u16_at(chunk, cursor + 2);
        let texture_name = if (texture_id as usize) < textures.len() {
            Some(textures[texture_id as usize].name.clone())
        } else {
            None
        };
        let png_candidate = match &texture_name {
            Some(name) => Some(texture_to_png_candidate(name.as_str())),
            None => None,
        };
        let entry = TextureMapEntry { texture_id, settings, texture_name, png_candidate };
        proof {
            assert(entry@ == full[j as int]);
        }
        maps.push(entry);
        j = j + 1;
    }
    assert(maps@.map_values(|m: TextureMapEntry| m@) =~= full);
    maps
}

/// Reads one material whose fixed part lies at `base`.
fn parse_material(chunk: &[u8], index: usize, base: usize, textures: &[TextureEntry]) -> (r: MaterialEntry)
    requires
        base + 0x40 <= chunk.len(),
    ensures
        Some(r@) == material_spec(chunk@, index as int, base as int, textures_view(textures@)),
{
    let name = read_fixed_string(&chunk[base..base + 20]);
    let fore_color = read_i16x4_be(chunk, base + 0x14).unwrap();
    let back_color = read_i16x4_be(chunk, base + 0x1C).unwrap();
    let color_reg_3 = read_i16x4_be(chunk, base + 0x24).unwrap();
    let tev1 = read_u8x4(chunk, base + 0x2C).unwrap();
    let tev2 = read_u8x4(chunk, base + 0x30).unwrap();
    let tev3 = read_u8x4(chunk, base + 0x34).unwrap();
    let tev4 = read_u8x4(chunk, base + 0x38).unwrap();
    let flags = be_u32_at(chunk, base + 0x3C);
    let texture_map_count = (flags & 0xF) as usize;
    let texture_maps = parse_texture_maps(chunk, base + 0x40, texture_map_count, textures);
    let ghost maps = texture_maps@.map_values(|m: TextureMapEntry| m@);
    let mut texture_indices: Vec<usize> = Vec::new();
    let mut texture_names: Vec<String> = Vec::new();
    let mut j: usize = 0;
    while j < texture_maps.len()
        invariant
            j <= texture_maps@.len(),
            maps == texture_maps@.map_values(|m: TextureMapEntry| m@),
            texture_indices@ == maps.subrange(0, j as int).map_values(|m: TextureMapView| m.texture_id as usize),
            texture_names.deep_view() == map_names(maps.subrange(0, j as int)),
        decreases texture_maps.len() - j,
    {
        let m = &texture_maps[j];
        texture_indices.push(m.texture_id as usize);
        let ghost names_before = texture_names.deep_view();
        match &m.texture_name {
            Some(n) => {
                texture_names.push(n.clone());
                assert(texture_names.deep_view() =~= names_before.push(n@));
            },
            None => {},
        }
        proof {
            let sub = maps.subrange(0, j + 1);
            assert(sub.drop_last() =~= maps.subrange(0, j as int));
            assert(sub.last() == m@);
        }
        j = j + 1;
        assert(texture_indices@ =~= maps.subrange(0, j as int).map_values(|m: TextureMapView| m.texture_id as usize));
    }
    assert(maps.subrange(0, maps.len() as int) =~= maps);
    proof {
        assert(flags & 0xF == (flags >> 0u32) & 0xF) by (bit_vector);
    }
    MaterialEntry {
        index,
        name,
        offset_in_mat1: base,
        fore_color,
        back_color,
        color_reg_3,
        tev_colors: [tev1, tev2, tev3, tev4],
        flags,
        has_material_color: ((flags >> 30) & 0x1) != 0,
        has_channel_control: ((flags >> 28) & 0x1) != 0,
        has_blend_mode: ((flags >> 27) & 0x1) != 0,
        has_alpha_compare: ((flags >> 23) & 0x1) != 0,
        tev_stage_count: ((flags >> 19) & 0xF) as usize,
        indirect_stage_count: ((flags >> 17) & 0x3) as usize,
        indirect_matrix_count: ((flags >> 15) & 0x3) as usize,
        has_tev_swap_table: ((flags >> 14) & 0x1) != 0,
        tex_coord_gen_count: ((flags >> 10) & 0xF) as usize,
        texture_srt_count: ((flags >> 6) & 0xF) as usize,
        texture_map_count,
        texture_maps,
        texture_indices,
        texture_names,
    }
}

/// Reads the materials of a `mat1` chunk, naming their texture maps after
/// `textures`.
pub fn parse_mat1(chunk_data: &[u8], textures: &[TextureEntry]) -> (r: Vec<MaterialEntry>)
    ensures
        materials_view(r@) == mat1_spec(chunk_data@, textures_view(textures@)),
{
    let (_count, offsets) = read_mat1_offsets(chunk_data);
    let ghost offs = mat1_offsets(chunk_data@);
    let ghost tv = textures_view(textures@);
    let len = chunk_data.len();
    let mut out: Vec<MaterialEntry> = Vec::new();
    let mut index: usize = 0;
    while index < offsets.len()
        invariant
            index <= offsets@.len(),
            offs == mat1_offsets(chunk_data@),
            offsets@.len() == offs.len(),
            forall|j: int| 0 <= j < offsets@.len() ==> offsets@[j] as int == #[trigger] offs[j],
            tv == textures_view(textures@),
            len == chunk_data@.len(),
            materials_view(out@) == mat1_entries(chunk_data@, offs, index as int, tv),
        decreases offsets.len() - index,
    {
        let base = offsets[index];
        assert(offs[index as int] == base as int);
        if (base as u64) + 0x40 <= len as u64 {
            let m = parse_material(chunk_data, index, base as usize, textures);
            let ghost before = out@;
            out.push(m);
            assert(materials_view(out@) =~= materials_view(before).push(m@));
        }
        index = index + 1;
    }
    out
}

/// Every material keeps at most as many texture maps as its flags
/// announce, lists one index per map, and has counts that fit their fields.
pub proof fn law_material_counts(chunk: Seq<u8>, textures: Seq<TextureView>)
    ensures
        forall|k: int| 0 <= k < mat1_spec(chunk, textures).len() ==> {
            let m = #[trigger] mat1_spec(chunk, textures)[k];
            &&& m.texture_maps.len() <= m.texture_map_count <= 15
            &&& m.texture_indices.len() == m.texture_maps.len()
            &&& m.tev_stage_count <= 15
            &&& m.indirect_stage_count <= 3
            &&& m.indirect_matrix_count <= 3
            &&& m.tex_coord_gen_count <= 15
            &&& m.texture_srt_count <= 15
        },
{
    let offs = mat1_offsets(chunk);
    lemma_mat1_counts(chunk, offs, offs.len() as int, textures);
}

proof fn lemma_mat1_counts(chunk: Seq<u8>, offs: Seq<int>, n: int, textures: Seq<TextureView>)
    ensures
        forall|k: int| 0 <= k < mat1_entries(chunk, offs, n, textures).len() ==> {
            let m = #[trigger] mat1_entries(chunk, offs, n, textures)[k];
            &&& m.texture_maps.len() <= m.texture_map_count <= 15
            &&& m.texture_indices.len() == m.texture_maps.len()
            &&& m.tev_stage_count <= 15
            &&& m.indirect_stage_count <= 3
            &&& m.indirect_matrix_count <= 3
            &&& m.tex_coord_gen_count <= 15
            &&& m.texture_srt_count <= 15
        },
    decreases n,
{
    if n > 0 {
        lemma_mat1_counts(chunk, offs, n - 1, textures);
        let prev = mat1_entries(chunk, offs, n - 1, textures);
        let all = mat1_entries(chunk, offs, n, textures);
        match material_spec(chunk, n - 1, offs[n - 1], textures) {
            Some(m) => {
                let flags = m.flags;
                assert((flags >> 0u32) & 0xF <= 15) by (bit_vector);
                assert((flags >> 19u32) & 0xF <= 15) by (bit_vector);
                assert((flags >> 17u32) & 0x3 <= 3) by (bit_vector);
                assert((flags >> 15u32) & 0x3 <= 3) by (bit_vector);
                assert((flags >> 10u32) & 0xF <= 15) by (bit_vector);
                assert((flags >> 6u32) & 0xF <= 15) by (bit_vector);
                assert forall|k: int| 0 <= k < all.len() implies {
                    let m = #[trigger] all[k];
                    &&& m.texture_maps.len() <= m.texture_map_count <= 15
                    &&& m.texture_indices.len() == m.texture_maps.len()
                    &&& m.tev_stage_count <= 15
                    &&& m.indirect_stage_count <= 3
                    &&& m.indirect_matrix_count <= 3
                    &&& m.tex_coord_gen_count <= 15
                    &&& m.texture_srt_count <= 15
                } by {
                    if k < prev.len() {
                        assert(all[k] == prev[k]);
                    }
                }
            },
            None => {},
        }
    }
}

// ---------------------------------------------------------------------------
// mat1 diagnostics.
// ---------------------------------------------------------------------------

/// Where a material offset could point, with previews of each candidate.
#[derive(Debug)]
pub struct Mat1DebugEntry {
    pub index: usize,
    pub raw_offset: usize,
    pub candidate_abs_a: u64,
    pub candidate_abs_b: u64,
    pub candidate_abs_c: u64,
    pub preview_a_hex: String,
    pub preview_b_hex: String,
    pub preview_c_hex: String,
    pub ascii_a: String,
    pub ascii_b: String,
    pub ascii_c: String,
    pub flags_a_3c: Option<u32>,
    pub flags_b_3c: Option<u32>,
    pub flags_c_3c: Option<u32>,
}

/// Diagnostics of a `mat1` chunk.
#[derive(Debug)]
pub struct Mat1Debug {
    pub chunk_size: usize,
    pub count: usize,
    pub offsets_table_start: usize,
    pub offsets: Vec<usize>,
    pub entries: Vec<Mat1DebugEntry>,
}

/// One candidate's previews: hex of 64 bytes, ASCII of 32, and the word at +0x3C.
pub struct CandidateView {
    pub abs: int,
    pub hex: Seq<char>,
    pub ascii: Seq<char>,
    pub flags: Option<u32>,
}

/// The previews of candidate `abs`.
pub open spec fn candidate_spec(chunk: Seq<u8>, abs: int) -> CandidateView {
    CandidateView {
        abs,
        hex: hex_join(preview_bytes(chunk, abs, 64)),
        ascii: preview_bytes(chunk, abs, 32).map_values(|b: u8| ascii_shown(b)),
        flags: u32_at_opt(chunk, abs + 0x3C),
    }
}

/// The three candidates of a debug entry.
pub open spec fn entry_candidates(e: Mat1DebugEntry) -> (CandidateView, CandidateView, CandidateView) {
    (
        CandidateView {
            abs: e.candidate_abs_a as int,
            hex: e.preview_a_hex@,
            ascii: e.ascii_a@,
            flags: e.flags_a_3c,
        },
        CandidateView {
            abs: e.candidate_abs_b as int,
            hex: e.preview_b_hex@,
            ascii: e.ascii_b@,
            flags: e.flags_b_3c,
        },
        CandidateView {
            abs: e.candidate_abs_c as int,
            hex: e.preview_c_hex@,
            ascii: e.ascii_c@,
            flags: e.flags_c_3c,
        },
    )
}

/// The debug entry for offset number `k`: the offset read from the chunk
/// start, from just past the offset table, and from 4 bytes further.
pub open spec fn debug_entry_ok(chunk: Seq<u8>, count: int, k: int, raw: int, e: Mat1DebugEntry) -> bool {
    &&& e.index == k
    &&& e.raw_offset == raw
    &&& entry_candidates(e) == (
        candidate_spec(chunk, raw),
        candidate_spec(chunk, 8 + 4 * count + raw),
        candidate_spec(chunk, 12 + 4 * count + raw),
    )
}

/// Previews of the candidate at `abs`.
fn candidate(chunk: &[u8], abs: u64) -> (r: (String, String, Option<u32>))
    ensures
        r.0@ == candidate_spec(chunk@, abs as int).hex,
        r.1@ == candidate_spec(chunk@, abs as int).ascii,
        r.2 == candidate_spec(chunk@, abs as int).flags,
{
    let len = chunk.len();
    if abs >= len as u64 {
        let e1 = String::new();
        let e2 = String::new();
        assert(e1@ =~= hex_join(Seq::empty()));
        assert(e2@ =~= Seq::<u8>::empty().map_values(|b: u8| ascii_shown(b)));
        return (e1, e2, None);
    }
    let a = abs as usize;
    let hex = hex_preview(chunk, a, 64);
    let ascii = ascii_preview(chunk, a, 32);
    let flags = if len - a < 0x3C + 4 { None } else { read_u32_be_at(chunk, a + 0x3C) };
    (hex, ascii, flags)
}

/// What the diagnostics of a `mat1` chunk hold: the chunk size, the count
/// and offsets it announces, and for each offset the candidate previews.
pub open spec fn mat1_debug_holds(chunk: Seq<u8>, d: Mat1Debug) -> bool {
    &&& d.chunk_size == chunk.len()
    &&& chunk.len() < 10 ==> d.count == 0 && d.offsets_table_start == 0 && d.offsets@.len() == 0
            && d.entries@.len() == 0
    &&& chunk.len() >= 10 ==> {
            &&& d.count == be16_at(chunk, 8)
            &&& d.offsets_table_start == 0x0C
            &&& d.offsets@.len() == mat1_offsets(chunk).len()
            &&& forall|k: int| 0 <= k < d.offsets@.len() ==> d.offsets@[k] as int == #[trigger] mat1_offsets(chunk)[k]
            &&& d.entries@.len() == d.offsets@.len()
            &&& forall|k: int| 0 <= k < d.entries@.len() ==> debug_entry_ok(
                chunk,
                d.count as int,
                k,
                mat1_offsets(chunk)[k],
                #[trigger] d.entries@[k],
            )
        }
}

/// Diagnostic view of a `mat1` chunk: its offsets, and previews of where
/// each could point.
pub fn parse_mat1_debug(chunk_data: &[u8]) -> (r: Mat1Debug)
    ensures
        mat1_debug_holds(chunk_data@, r),
{
    let len = chunk_data.len();
    if len < 10 {
        return Mat1Debug {
            chunk_size: len,
            count: 0,
            offsets_table_start: 0,
            offsets: Vec::new(),
            entries: Vec::new(),
        };
    }
    let (count, raw) = read_mat1_offsets(chunk_data);
    let ghost offs = mat1_offsets(chunk_data@);
    let mut offsets: Vec<usize> = Vec::new();
    let mut entries: Vec<Mat1DebugEntry> = Vec::new();
    let base_b: u64 = 0x08 + count as u64 * 4;
    let base_c: u64 = 0x0C + count as u64 * 4;
    let mut index: usize = 0;
    while index < raw.len()
        invariant
            index <= raw@.len(),
            count <= 0xFFFF,
            base_b == 8 + 4 * count,
            base_c == 12 + 4 * count,
            raw@.len() == offs.len(),
            forall|j: int| 0 <= j < raw@.len() ==> raw@[j] as int == #[trigger] offs[j],
            offsets@.len() == index,
            entries@.len() == index,
            forall|j: int| 0 <= j < index ==> offsets@[j] as int == #[trigger] offs[j],
            forall|j: int| 0 <= j < index ==> debug_entry_ok(chunk_data@, count as int, j, offs[j], #[trigger] entries@[j]),
        decreases raw.len() - index,
    {
        let raw_offset = raw[index];
        assert(raw_offset as int == offs[index as int]);
        let a: u64 = raw_offset as u64;
        let b: u64 = base_b + raw_offset as u64;
        let c: u64 = base_c + raw_offset as u64;
        let (preview_a_hex, ascii_a, flags_a_3c) = candidate(chunk_data, a);
        let (preview_b_hex, ascii_b, flags_b_3c) = candidate(chunk_data, b);
        let (preview_c_hex, ascii_c, flags_c_3c) = candidate(chunk_data, c);
        offsets.push(raw_offset as usize);
        entries.push(
            Mat1DebugEntry {
                index,
                raw_offset: raw_offset as usize,
                candidate_abs_a: a,
                candidate_abs_b: b,
                candidate_abs_c: c,
                preview_a_hex,
                preview_b_hex,
                preview_c_hex,
                ascii_a,
                ascii_b,
                ascii_c,
                flags_a_3c,
                flags_b_3c,
                flags_c_3c,
            },
        );
        index = index + 1;
    }
    Mat1Debug { chunk_size: len, count, offsets_table_start: 0x0C, offsets, entries }
}

// ---------------------------------------------------------------------------
// Panes.
// ---------------------------------------------------------------------------

/// A pane with the common fields given and no material, colors, UV sets
/// or children.
pub open spec fn base_pane(
    name: Seq<char>,
    user_data: Seq<char>,
    visible: bool,
    geometry: Seq<u32>,
    alpha: u8,
    kind: Seq<char>,
) -> PaneView {
    PaneView {
        name,
        user_data,
        visible,
        x: geometry[0],
        y: geometry[1],
        z: geometry[2],
        rot_x: geometry[3],
        rot_y: geometry[4],
        rot_z: geometry[5],
        scale_x: geometry[6],
        scale_y: geometry[7],
        width: geometry[8],
        height: geometry[9],
        alpha,
        kind,
        material_index: None,
        material_name: None,
        texture_name: None,
        png_candidate: None,
        top_left_color: None,
        top_right_color: None,
        bottom_left_color: None,
        bottom_right_color: None,
        uv_sets: Seq::empty(),
        children: Seq::empty(),
    }
}

/// The common pane fields stored at `pos`: flags, origin, alpha, padding,
/// a 16-byte name, 8 bytes of user data, then ten big-endian floats
/// (translation, rotation, scale, size).
pub open spec fn pane_common_spec(data: Seq<u8>, pos: int, kind: Seq<char>) -> Result<PaneView, BrlytError> {
    if pos + 68 > data.len() {
        Err(BrlytError::UnexpectedEof)
    } else {
        Ok(
            base_pane(
                trim_nul(text_of(data.subrange(pos + 4, pos + 20))),
                trim_nul(text_of(data.subrange(pos + 20, pos + 28))),
                data[pos] & 1 != 0,
                Seq::new(10, |k: int| be32_at(data, pos + 28 + 4 * k) as u32),
                data[pos + 2],
                kind,
            ),
        )
    }
}

/// A fresh pane with the given common fields.
fn new_pane(
    name: String,
    user_data: String,
    visible: bool,
    g: [u32; 10],
    alpha: u8,
    kind: String,
) -> (r: Pane)
    ensures
        r@ == base_pane(name@, user_data@, visible, g@, alpha, kind@),
{
    let r = Pane {
        name,
        user_data,
        visible,
        width: g[8],
        height: g[9],
        x: g[0],
        y: g[1],
        z: g[2],
        scale_x: g[6],
        scale_y: g[7],
        rot_x: g[3],
        rot_y: g[4],
        rot_z: g[5],
        alpha,
        kind,
        material_index: None,
        material_name: None,
        texture_name: None,
        png_candidate: None,
        top_left_color: None,
        top_right_color: None,
        bottom_left_color: None,
        bottom_right_color: None,
        uv_sets: Vec::new(),
        children: Vec::new(),
    };
    proof {
        assert(r.uv_sets@ =~= Seq::<[u32; 4]>::empty());
        assert(panes_view(r.children@) =~= Seq::<PaneView>::empty());
    }
    r
}

/// Text of a padded field: decoded leniently, NULs trimmed from both ends.
fn padded_text(data: &[u8], start: usize, end: usize) -> (r: String)
    requires
        start <= end <= data@.len(),
    ensures
        r@ == trim_nul(text_of(data@.subrange(start as int, end as int))),
{
    let raw = utf8_lossy(&data[start..end]);
    let chars = chars_of(raw.as_str());
    let t = trim_nul_chars(chars.as_slice());
    string_from_chars(t.as_slice())
}

/// Reads the common pane fields at `pos`.
pub fn parse_pane_common(data: &[u8], pos: usize, kind: &str) -> (r: Result<Pane, BrlytError>)
    ensures
        match pane_common_spec(data@, pos as int, kind@) {
            Ok(p) => r matches Ok(q) && q@ == p,
            Err(e) => r == Err::<Pane, BrlytError>(e),
        },
{
    let len = data.len();
    if pos > len || len - pos < 68 {
        return Err(BrlytError::UnexpectedEof);
    }
    let flag = data[pos];
    let alpha = data[pos + 2];
    let name = padded_text(data, pos + 4, pos + 20);
    let user_data = padded_text(data, pos + 20, pos + 28);
    let g: [u32; 10] = [
        be_u32_at(data, pos + 28),
        be_u32_at(data, pos + 32),
        be_u32_at(data, pos + 36),
        be_u32_at(data, pos + 40),
        be_u32_at(data, pos + 44),
        be_u32_at(data, pos + 48),
        be_u32_at(data, pos + 52),
        be_u32_at(data, pos + 56),
        be_u32_at(data, pos + 60),
        be_u32_at(data, pos + 64),
    ];
    assert(g@ =~= Seq::new(10, |k: int| be32_at(data@, pos + 28 + 4 * k) as u32));
    let k = string_from_chars(chars_of(kind).as_slice());
    Ok(new_pane(name, user_data, (flag & 1) != 0, g, alpha, k))
}

/// The pane type named by a chunk tag: its UTF-8 text, or "unk".
pub open spec fn tag_kind(tag: Seq<u8>) -> Seq<char> {
    if valid_utf8(tag) { decode_utf8(tag) } else { "unk"@ }
}

/// Reads a plain pane (`pan1`, `txt1`, `wnd1`) whose fields start at `pos`.
pub fn parse_pane_base(data: &[u8], pos: usize, tag: &[u8; 4]) -> (r: Result<Pane, BrlytError>)
    ensures
        match pane_common_spec(data@, pos as int, tag_kind(tag@)) {
            Ok(p) => r matches Ok(q) && q@ == p,
            Err(e) => r == Err::<Pane, BrlytError>(e),
        },
{
    let bytes: Vec<u8> = vec![tag[0], tag[1], tag[2], tag[3]];
    assert(bytes@ =~= tag@);
    let kind = match utf8_strict(bytes) {
        Ok(k) => k,
        Err(_) => string_from_chars(chars_of("unk").as_slice()),
    };
    parse_pane_common(data, pos, kind.as_str())
}

/// The four colors, material index and UV sets of a `pic1` chunk, after
/// its common pane fields.
pub open spec fn pic1_spec(chunk: Seq<u8>) -> Result<PaneView, BrlytError> {
    if chunk.len() < 0x54 {
        Err(BrlytError::Pic1TooSmall)
    } else if chunk.len() < 0x60 {
        Err(BrlytError::UnexpectedEof)
    } else if 0x60 + 16 * (chunk[0x5E] as int) > chunk.len() {
        Err(BrlytError::UnexpectedEof)
    } else {
        let p = pane_common_spec(chunk, 8, "pic1"@).unwrap();
        Ok(
            PaneView {
                top_left_color: u8x4_spec(chunk, 0x4C),
                top_right_color: u8x4_spec(chunk, 0x50),
                bottom_left_color: u8x4_spec(chunk, 0x54),
                bottom_right_color: u8x4_spec(chunk, 0x58),
                material_index: Some(be16_at(chunk, 0x5C) as u16),
                uv_sets: Seq::new(
                    chunk[0x5E] as nat,
                    |j: int|
                        [
                            be32_at(chunk, 0x60 + 16 * j) as u32,
                            be32_at(chunk, 0x64 + 16 * j) as u32,
                            be32_at(chunk, 0x68 + 16 * j) as u32,
                            be32_at(chunk, 0x6C + 16 * j) as u32,
                        ],
                ),
                ..p
            },
        )
    }
}

/// Reads the UV set (four big-endian floats) at `pos`.
pub fn read_uv_set(data: &[u8], pos: usize) -> (r: Result<[u32; 4], BrlytError>)
    ensures
        pos + 16 <= data@.len() ==> r == Ok::<[u32; 4], BrlytError>(
            [
                be32_at(data@, pos as int) as u32,
                be32_at(data@, pos + 4) as u32,
                be32_at(data@, pos + 8) as u32,
                be32_at(data@, pos + 12) as u32,
            ],
        ),
        pos + 16 > data@.len() ==> r == Err::<[u32; 4], BrlytError>(BrlytError::UnexpectedEof),
{
    let len = data.len();
    if pos > len || len - pos < 16 {
        return Err(BrlytError::UnexpectedEof);
    }
    Ok(
        [
            be_u32_at(data, pos),
            be_u32_at(data, pos + 4),
            be_u32_at(data, pos + 8),
            be_u32_at(data, pos + 12),
        ],
    )
}

/// Reads a `pic1` chunk: a pane with corner colors, a material and UV sets.
pub fn parse_pic1(chunk_data: &[u8]) -> (r: Result<Pane, BrlytError>)
    ensures
        match pic1_spec(chunk_data@) {
            Ok(p) => r matches Ok(q) && q@ == p,
            Err(e) => r == Err::<Pane, BrlytError>(e),
        },
{
    let len = chunk_data.len();
    if len < 0x54 {
        return Err(BrlytError::Pic1TooSmall);
    }
    let mut pane = parse_pane_common(chunk_data, 8, "pic1")?;
    let ghost p0 = pane@;
    if len < 0x60 {
        return Err(BrlytError::UnexpectedEof);
    }
    pane.top_left_color = read_u8x4(chunk_data, 0x4C);
    pane.top_right_color = read_u8x4(chunk_data, 0x50);
    pane.bottom_left_color = read_u8x4(chunk_data, 0x54);
    pane.bottom_right_color = read_u8x4(chunk_data, 0x58);
    pane.material_index = Some(be_u16_at(chunk_data, 0x5C));
    let uv_count = chunk_data[0x5E] as usize;
    let mut uv_sets: Vec<[u32; 4]> = Vec::new();
    let mut j: usize = 0;
    while j < uv_count
        invariant
            j <= uv_count,
            uv_count == chunk_data@[0x5E],
            len == chunk_data@.len(),
            len >= 0x60,
            0x60 + 16 * j <= len,
            uv_sets@ =~= Seq::new(
                j as nat,
                |t: int|
                    [
                        be32_at(chunk_data@, 0x60 + 16 * t) as u32,
                        be32_at(chunk_data@, 0x64 + 16 * t) as u32,
                        be32_at(chunk_data@, 0x68 + 16 * t) as u32,
                        be32_at(chunk_data@, 0x6C + 16 * t) as u32,
                    ],
            ),
        decreases uv_count - j,
    {
        let uv = read_uv_set(chunk_data, 0x60 + 16 * j)?;
        uv_sets.push(uv);
        j = j + 1;
    }
    pane.uv_sets = uv_sets;
    proof {
        let spec = pic1_spec(chunk_data@).unwrap();
        assert(pane_common_spec(chunk_data@, 8, "pic1"@) == Ok::<PaneView, BrlytError>(p0));
        assert(pane@.children == p0.children);
        assert(pane@.uv_sets == spec.uv_sets);
        assert(pane@ == spec);
    }
    Ok(pane)
}

// ---------------------------------------------------------------------------
// Binding picture panes to materials.
// ---------------------------------------------------------------------------

/// Where a picture pane is drawn and which texture it shows. The geometry
/// fields hold IEEE-754 single-precision bit patterns.
#[derive(Debug)]
pub struct PictureBinding {
    pub pane_name: String,
    pub material_index: Option<u16>,
    pub material_name: Option<String>,
    pub texture_name: Option<String>,
    pub png_candidate: Option<String>,
    pub width: u32,
    pub height: u32,
    pub x: u32,
    pub y: u32,
    pub z: u32,
    pub scale_x: u32,
    pub scale_y: u32,
    pub alpha: u8,
}

/// A picture binding as values.
pub struct PictureView {
    pub pane_name: Seq<char>,
    pub material_index: Option<u16>,
    pub material_name: Option<Seq<char>>,
    pub texture_name: Option<Seq<char>>,
    pub png_candidate: Option<Seq<char>>,
    pub width: u32,
    pub height: u32,
    pub x: u32,
    pub y: u32,
    pub z: u32,
    pub scale_x: u32,
    pub scale_y: u32,
    pub alpha: u8,
}

impl View for PictureBinding {
    type V = PictureView;

    open spec fn view(&self) -> PictureView {
        PictureView {
            pane_name: self.pane_name@,
            material_index: self.material_index,
            material_name: opt_str(self.material_name),
            texture_name: opt_str(self.texture_name),
            png_candidate: opt_str(self.png_candidate),
            width: self.width,
            height: self.height,
            x: self.x,
            y: self.y,
            z: self.z,
            scale_x: self.scale_x,
            scale_y: self.scale_y,
            alpha: self.alpha,
        }
    }
}

/// Views of a list of picture bindings.
pub open spec fn pictures_view(v: Seq<PictureBinding>) -> Seq<PictureView> {
    v.map_values(|p: PictureBinding| p@)
}

/// A picture pane after looking up its material: the material's name, and
/// the texture and PNG of the material's first texture map.
pub open spec fn bind_one(p: PaneView, mats: Seq<MaterialView>) -> PaneView {
    match p.material_index {
        Some(mi) => if (mi as int) < mats.len() {
            let mat = mats[mi as int];
            if mat.texture_maps.len() > 0 {
                PaneView {
                    material_name: Some(mat.name),
                    texture_name: mat.texture_maps[0].texture_name,
                    png_candidate: mat.texture_maps[0].png_candidate,
                    ..p
                }
            } else {
                PaneView { material_name: Some(mat.name), ..p }
            }
        } else {
            p
        },
        None => p,
    }
}

/// The binding recorded for a (bound) picture pane.
pub open spec fn picture_of(p: PaneView) -> PictureView {
    PictureView {
        pane_name: p.name,
        material_index: p.material_index,
        material_name: p.material_name,
        texture_name: p.texture_name,
        png_candidate: p.png_candidate,
        width: p.width,
        height: p.height,
        x: p.x,
        y: p.y,
        z: p.z,
        scale_x: p.scale_x,
        scale_y: p.scale_y,
        alpha: p.alpha,
    }
}

/// Binds a pane and its subtree: picture panes (`pic1`) take their
/// material's texture and are recorded, before their children, in order.
pub open spec fn bind_pane(p: PaneView, mats: Seq<MaterialView>) -> (PaneView, Seq<PictureView>)
    decreases p,
{
    let is_pic = p.kind == "pic1"@;
    let p1 = if is_pic { bind_one(p, mats) } else { p };
    let own: Seq<PictureView> = if is_pic { seq![picture_of(p1)] } else { Seq::empty() };
    let kids = bind_list(p.children, mats);
    (PaneView { children: kids.0, ..p1 }, own + kids.1)
}

/// Binds a list of panes, in order.
pub open spec fn bind_list(s: Seq<PaneView>, mats: Seq<MaterialView>) -> (Seq<PaneView>, Seq<PictureView>)
    decreases s,
{
    if s.len() == 0 {
        (Seq::empty(), Seq::empty())
    } else {
        let a = bind_list(s.drop_last(), mats);
        let b = bind_pane(s.last(), mats);
        (a.0.push(b.0), a.1 + b.1)
    }
}

/// The view of a list of panes has one view per pane.
pub proof fn lemma_panes_view(s: Seq<Pane>)
    ensures
        panes_view(s).len() == s.len(),
        forall|k: int| 0 <= k < s.len() ==> #[trigger] panes_view(s)[k] == pane_view(s[k]),
    decreases s.len(),
{
    if s.len() > 0 {
        lemma_panes_view(s.drop_last());
        assert forall|k: int| 0 <= k < s.len() implies #[trigger] panes_view(s)[k] == pane_view(s[k]) by {
            if k < s.len() - 1 {
                assert(s.drop_last()[k] == s[k]);
            }
        }
    }
}

/// Views of a list built by pushing.
pub proof fn lemma_panes_view_push(s: Seq<Pane>, p: Pane)
    ensures
        panes_view(s.push(p)) == panes_view(s).push(pane_view(p)),
{
    assert(s.push(p).drop_last() =~= s);
}

/// Binding a prefix one pane longer.
proof fn lemma_bind_list_step(s: Seq<PaneView>, k: int, mats: Seq<MaterialView>)
    requires
        0 <= k < s.len(),
    ensures
        bind_list(s.subrange(0, k + 1), mats) == (
            bind_list(s.subrange(0, k), mats).0.push(bind_pane(s[k], mats).0),
            bind_list(s.subrange(0, k), mats).1 + bind_pane(s[k], mats).1,
        ),
{
    assert(s.subrange(0, k + 1).drop_last() =~= s.subrange(0, k));
}

/// Copy of an optional string.
fn clone_opt(o: &Option<String>) -> (r: Option<String>)
    ensures
        opt_str(r) == opt_str(*o),
{
    match o {
        Some(s) => Some(s.clone()),
        None => None,
    }
}

/// Binds every picture pane in `panes` (and below) to its material, and
/// records a picture binding for each, in pre-order.
pub fn bind_materials_to_pictures(panes: Vec<Pane>, materials: &[MaterialEntry], pictures: &mut Vec<PictureBinding>) -> (r: Vec<Pane>)
    ensures
        panes_view(r@) == bind_list(panes_view(panes@), materials_view(materials@)).0,
        pictures_view(final(pictures)@) == pictures_view(old(pictures)@) + bind_list(
            panes_view(panes@),
            materials_view(materials@),
        ).1,
    decreases panes@,
{
    let ghost orig = panes@;
    let ghost mats = materials_view(materials@);
    let ghost sv = panes_view(orig);
    let ghost pics0 = pictures_view(pictures@);
    proof {
        lemma_panes_view(orig);
    }
    let n = panes.len();
    let mut input = panes;
    let mut out: Vec<Pane> = Vec::new();
    let mut k: usize = 0;
    #[verifier::loop_isolation(false)]
    while k < n
        invariant
            k <= n,
            n == orig.len(),
            sv == panes_view(orig),
            sv.len() == orig.len(),
            forall|j: int| 0 <= j < orig.len() ==> #[trigger] sv[j] == pane_view(orig[j]),
            mats == materials_view(materials@),
            input@ == orig.subrange(k as int, n as int),
            panes_view(out@) == bind_list(sv.subrange(0, k as int), mats).0,
            pictures_view(pictures@) == pics0 + bind_list(sv.subrange(0, k as int), mats).1,
        decreases n - k,
    {
        let p = input.remove(0);
        assert(p == orig[k as int]);
        let Pane {
            name,
            user_data,
            visible,
            width,
            height,
            x,
            y,
            z,
            scale_x,
            scale_y,
            rot_x,
            rot_y,
            rot_z,
            alpha,
            kind,
            material_index,
            material_name,
            texture_name,
            png_candidate,
            top_left_color,
            top_right_color,
            bottom_left_color,
            bottom_right_color,
            uv_sets,
            children,
        } = p;
        let mut material_name = material_name;
        let mut texture_name = texture_name;
        let mut png_candidate = png_candidate;
        let is_pic = str_eq(kind.as_str(), "pic1");
        if is_pic {
            match material_index {
                Some(mi) => {
                    if (mi as usize) < materials.len() {
                        let mat = &materials[mi as usize];
                        material_name = Some(mat.name.clone());
                        if mat.texture_maps.len() > 0 {
                            texture_name = clone_opt(&mat.texture_maps[0].texture_name);
                            png_candidate = clone_opt(&mat.texture_maps[0].png_candidate);
                        }
                    }
                },
                None => {},
            }
            let ghost before = pictures@;
            pictures.push(
                PictureBinding {
                    pane_name: name.clone(),
                    material_index,
                    material_name: clone_opt(&material_name),
                    texture_name: clone_opt(&texture_name),
                    png_candidate: clone_opt(&png_candidate),
                    width,
                    height,
                    x,
                    y,
                    z,
                    scale_x,
                    scale_y,
                    alpha,
                },
            );
            assert(pictures_view(pictures@) =~= pictures_view(before).push(pictures@.last()@));
        }
        proof {
            assert(decreases_to!(orig => orig[k as int]));
            assert(decreases_to!(orig[k as int] => orig[k as int].children));
            assert(decreases_to!(orig[k as int].children => orig[k as int].children@));
            assert(children == orig[k as int].children);
            assert(decreases_to!(orig => children@));
        }
        let ghost pics_mid = pictures_view(pictures@);
        let bound_children = bind_materials_to_pictures(children, materials, pictures);
        let bound = Pane {
            name,
            user_data,
            visible,
            width,
            height,
            x,
            y,
            z,
            scale_x,
            scale_y,
            rot_x,
            rot_y,
            rot_z,
            alpha,
            kind,
            material_index,
            material_name,
            texture_name,
            png_candidate,
            top_left_color,
            top_right_color,
            bottom_left_color,
            bottom_right_color,
            uv_sets,
            children: bound_children,
        };
        proof {
            let bp = bind_pane(sv[k as int], mats);
            assert(sv[k as int] == pane_view(p));
            assert(bound@ == bp.0);
            lemma_bind_list_step(sv, k as int, mats);
            lemma_panes_view_push(out@, bound);
        }
        out.push(bound);
        k = k + 1;
    }
    proof {
        assert(sv.subrange(0, n as int) =~= sv);
    }
    out
}

// ---------------------------------------------------------------------------
// The layout file.
// ---------------------------------------------------------------------------

/// A parsed layout. `width` and `height` hold IEEE-754 bit patterns;
/// `version` is never read from the file and stays 0.
#[derive(Debug)]
pub struct Layout {
    pub version: u16,
    pub width: u32,
    pub height: u32,
    pub textures: Vec<TextureEntry>,
    pub materials: Vec<MaterialEntry>,
    pub root: Vec<Pane>,
    pub pictures: Vec<PictureBinding>,
    pub mat1_debug: Option<Mat1Debug>,
}

/// Open panes (innermost last) and finished top-level panes.
pub struct TreeState {
    pub stack: Seq<PaneView>,
    pub roots: Seq<PaneView>,
}

/// `parent` with `child` appended to its children.
pub open spec fn attach(parent: PaneView, child: PaneView) -> PaneView {
    PaneView { children: parent.children.push(child), ..parent }
}

/// Closes the innermost open pane: it becomes the last child of the pane
/// around it, or a top-level pane.
pub open spec fn close_pane(t: TreeState) -> TreeState {
    if t.stack.len() == 0 {
        t
    } else {
        let child = t.stack.last();
        let rest = t.stack.drop_last();
        if rest.len() > 0 {
            TreeState { stack: rest.drop_last().push(attach(rest.last(), child)), roots: t.roots }
        } else {
            TreeState { stack: rest, roots: t.roots.push(child) }
        }
    }
}

/// The top-level panes once every open pane is closed.
pub open spec fn flush(t: TreeState) -> Seq<PaneView>
    decreases t.stack.len(),
{
    if t.stack.len() == 0 {
        t.roots
    } else {
        flush(close_pane(t))
    }
}

/// What the chunks read so far have set.
pub struct LayoutState {
    pub width: u32,
    pub height: u32,
    pub textures: Seq<TextureView>,
    pub mat1: Option<Seq<u8>>,
    pub tree: TreeState,
}

/// The state before the first chunk.
pub open spec fn initial_state() -> LayoutState {
    LayoutState {
        width: 0,
        height: 0,
        textures: Seq::empty(),
        mat1: None,
        tree: TreeState { stack: Seq::empty(), roots: Seq::empty() },
    }
}

/// Whether the chunk starts with the four tag bytes `a b c d`.
pub open spec fn has_tag(chunk: Seq<u8>, a: u8, b: u8, c: u8, d: u8) -> bool {
    chunk[0] == a && chunk[1] == b && chunk[2] == c && chunk[3] == d
}

/// `state` with `p` opened as the innermost pane.
pub open spec fn open_pane(st: LayoutState, p: PaneView) -> LayoutState {
    LayoutState { tree: TreeState { stack: st.tree.stack.push(p), roots: st.tree.roots }, ..st }
}

/// The effect of one chunk (`chunk` includes its 8-byte header).
#[verifier::opaque]
pub open spec fn chunk_step(st: LayoutState, chunk: Seq<u8>) -> Result<LayoutState, BrlytError> {
    if has_tag(chunk, 0x6C, 0x79, 0x74, 0x31) {
        // lyt1: layout size
        if chunk.len() < 20 {
            Err(BrlytError::UnexpectedEof)
        } else {
            Ok(LayoutState { width: be32_at(chunk, 12) as u32, height: be32_at(chunk, 16) as u32, ..st })
        }
    } else if has_tag(chunk, 0x74, 0x78, 0x6C, 0x31) {
        // txl1
        Ok(LayoutState { textures: txl1_spec(chunk), ..st })
    } else if has_tag(chunk, 0x6D, 0x61, 0x74, 0x31) {
        // mat1
        Ok(LayoutState { mat1: Some(chunk), ..st })
    } else if has_tag(chunk, 0x70, 0x61, 0x6E, 0x31) || has_tag(chunk, 0x74, 0x78, 0x74, 0x31) || has_tag(
        chunk,
        0x77,
        0x6E,
        0x64,
        0x31,
    ) {
        // pan1, txt1, wnd1
        match pane_common_spec(chunk, 8, tag_kind(chunk.subrange(0, 4))) {
            Err(e) => Err(e),
            Ok(p) => Ok(open_pane(st, p)),
        }
    } else if has_tag(chunk, 0x70, 0x69, 0x63, 0x31) {
        // pic1
        match pic1_spec(chunk) {
            Err(e) => Err(e),
            Ok(p) => Ok(open_pane(st, p)),
        }
    } else if has_tag(chunk, 0x70, 0x61, 0x65, 0x31) {
        // pae1
        Ok(LayoutState { tree: close_pane(st.tree), ..st })
    } else {
        Ok(st)
    }
}

/// The chunks read: from `pos`, at most `remaining` of them, stopping at
/// the first whose header or body does not fit or whose size is below 8.
pub open spec fn chunk_list(buf: Seq<u8>, pos: int, remaining: int) -> Seq<(int, int)>
    decreases remaining,
{
    if remaining <= 0 || pos + 8 > buf.len() {
        Seq::empty()
    } else {
        let size = be32_at(buf, pos + 4);
        if size < 8 || pos + size > buf.len() {
            Seq::empty()
        } else {
            seq![(pos, size)] + chunk_list(buf, pos + size, remaining - 1)
        }
    }
}

/// Applies the chunks in order.
pub open spec fn fold_chunks(buf: Seq<u8>, st: LayoutState, chunks: Seq<(int, int)>) -> Result<LayoutState, BrlytError>
    decreases chunks.len(),
{
    if chunks.len() == 0 {
        Ok(st)
    } else {
        let (pos, size) = chunks[0];
        match chunk_step(st, buf.subrange(pos, pos + size)) {
            Err(e) => Err(e),
            Ok(s2) => fold_chunks(buf, s2, chunks.drop_first()),
        }
    }
}

/// The state after all chunks of a layout file.
pub open spec fn brlyt_state(buf: Seq<u8>) -> Result<LayoutState, BrlytError> {
    if buf.len() < 0x10 || !has_tag(buf, 0x52, 0x4C, 0x59, 0x54) {
        Err(BrlytError::NotBrlyt)
    } else {
        fold_chunks(buf, initial_state(), chunk_list(buf, be16_at(buf, 12), be16_at(buf, 14)))
    }
}

/// The layout a parse yields from the final state: materials named after
/// the textures, panes closed, picture panes bound.
pub open spec fn layout_holds(st: LayoutState, l: Layout) -> bool {
    let mats = match st.mat1 {
        Some(c) => mat1_spec(c, st.textures),
        None => Seq::empty(),
    };
    let bound = bind_list(flush(st.tree), mats);
    &&& l.version == 0
    &&& l.width == st.width
    &&& l.height == st.height
    &&& textures_view(l.textures@) == st.textures
    &&& materials_view(l.materials@) == mats
    &&& panes_view(l.root@) == bound.0
    &&& pictures_view(l.pictures@) == bound.1
    &&& match st.mat1 {
        Some(c) => l.mat1_debug matches Some(d) && mat1_debug_holds(c, d),
        None => l.mat1_debug is None,
    }
}

/// The tree state held by a stack of open panes and a list of top-level panes.
pub open spec fn tree_of(stack: Seq<Pane>, roots: Seq<Pane>) -> TreeState {
    TreeState { stack: panes_view(stack), roots: panes_view(roots) }
}

/// The state held by the parse's variables.
pub open spec fn state_of(
    width: u32,
    height: u32,
    textures: Seq<TextureEntry>,
    mat1: Option<Vec<u8>>,
    stack: Seq<Pane>,
    roots: Seq<Pane>,
) -> LayoutState {
    LayoutState {
        width,
        height,
        textures: textures_view(textures),
        mat1: match mat1 {
            Some(v) => Some(v@),
            None => None,
        },
        tree: tree_of(stack, roots),
    }
}

/// Reading one more chunk: its effect, then the rest.
proof fn lemma_fold_next(buf: Seq<u8>, st: LayoutState, pos: int, left: int)
    requires
        left > 0,
        pos + 8 <= buf.len(),
        be32_at(buf, pos + 4) >= 8,
        pos + be32_at(buf, pos + 4) <= buf.len(),
    ensures
        fold_chunks(buf, st, chunk_list(buf, pos, left)) == match chunk_step(
            st,
            buf.subrange(pos, pos + be32_at(buf, pos + 4)),
        ) {
            Err(e) => Err(e),
            Ok(s2) => fold_chunks(buf, s2, chunk_list(buf, pos + be32_at(buf, pos + 4), left - 1)),
        },
{
    let size = be32_at(buf, pos + 4);
    let rest = chunk_list(buf, pos + size, left - 1);
    assert(chunk_list(buf, pos, left) == seq![(pos, size)] + rest);
    assert((seq![(pos, size)] + rest).drop_first() =~= rest);
}

/// No further chunk fits: the state stays as it is.
proof fn lemma_fold_stop(buf: Seq<u8>, st: LayoutState, pos: int, left: int)
    requires
        left <= 0 || pos + 8 > buf.len() || be32_at(buf, pos + 4) < 8 || pos + be32_at(buf, pos + 4) > buf.len(),
    ensures
        fold_chunks(buf, st, chunk_list(buf, pos, left)) == Ok::<LayoutState, BrlytError>(st),
{
}

/// Closes the innermost open pane.
fn close_top(stack: &mut Vec<Pane>, roots: &mut Vec<Pane>)
    ensures
        close_pane(tree_of(old(stack)@, old(roots)@)) == tree_of(final(stack)@, final(roots)@),
        old(stack)@.len() > 0 ==> final(stack)@.len() == old(stack)@.len() - 1,
{
    let ghost s0 = stack@;
    match stack.pop() {
        None => {},
        Some(child) => {
            proof {
                lemma_panes_view_push(stack@, child);
                assert(s0 == stack@.push(child));
                assert(panes_view(s0).drop_last() =~= panes_view(stack@));
            }
            let ghost s1 = stack@;
            match stack.pop() {
                Some(mut parent) => {
                    proof {
                        lemma_panes_view_push(stack@, parent);
                        assert(s1 == stack@.push(parent));
                        assert(panes_view(s1).drop_last() =~= panes_view(stack@));
                    }
                    let ghost pv = pane_view(parent);
                    let ghost oc = parent.children@;
                    parent.children.push(child);
                    proof {
                        lemma_panes_view_push(oc, child);
                        assert(pane_view(parent).children == pv.children.push(pane_view(child)));
                        assert(pane_view(parent) == attach(pv, pane_view(child)));
                        lemma_panes_view_push(stack@, parent);
                    }
                    stack.push(parent);
                },
                None => {
                    proof {
                        lemma_panes_view_push(roots@, child);
                        assert(panes_view(s1) =~= Seq::<PaneView>::empty());
                    }
                    roots.push(child);
                },
            }
        },
    }
}

/// Applies one chunk to the parse's variables.
fn step_chunk(
    chunk_data: &[u8],
    width: &mut u32,
    height: &mut u32,
    textures: &mut Vec<TextureEntry>,
    mat1_chunk: &mut Option<Vec<u8>>,
    stack: &mut Vec<Pane>,
    roots: &mut Vec<Pane>,
) -> (r: Result<(), BrlytError>)
    requires
        chunk_data@.len() >= 8,
    ensures
        match chunk_step(
            state_of(*old(width), *old(height), old(textures)@, *old(mat1_chunk), old(stack)@, old(roots)@),
            chunk_data@,
        ) {
            Err(e) => r == Err::<(), BrlytError>(e),
            Ok(s2) => r is Ok && s2 == state_of(
                *final(width),
                *final(height),
                final(textures)@,
                *final(mat1_chunk),
                final(stack)@,
                final(roots)@,
            ),
        },
{
    reveal(chunk_step);
    let ghost c = chunk_data@;
    let t0 = chunk_data[0];
    let t1 = chunk_data[1];
    let t2 = chunk_data[2];
    let t3 = chunk_data[3];
    if t0 == 0x6C && t1 == 0x79 && t2 == 0x74 && t3 == 0x31 {
        if chunk_data.len() < 20 {
            return Err(BrlytError::UnexpectedEof);
        }
        *width = be_u32_at(chunk_data, 12);
        *height = be_u32_at(chunk_data, 16);
    } else if t0 == 0x74 && t1 == 0x78 && t2 == 0x6C && t3 == 0x31 {
        *textures = parse_txl1(chunk_data);
    } else if t0 == 0x6D && t1 == 0x61 && t2 == 0x74 && t3 == 0x31 {
        let copy = slice_range(chunk_data, 0, chunk_data.len());
        assert(c.subrange(0, c.len() as int) =~= c);
        *mat1_chunk = Some(copy);
    } else if (t0 == 0x70 && t1 == 0x61 && t2 == 0x6E && t3 == 0x31) || (t0 == 0x74 && t1 == 0x78 && t2 == 0x74
        && t3 == 0x31) || (t0 == 0x77 && t1 == 0x6E && t2 == 0x64 && t3 == 0x31) {
        let tag: [u8; 4] = [t0, t1, t2, t3];
        assert(tag@ =~= c.subrange(0, 4));
        let pane = parse_pane_base(chunk_data, 8, &tag)?;
        proof {
            lemma_panes_view_push(stack@, pane);
        }
        stack.push(pane);
    } else if t0 == 0x70 && t1 == 0x69 && t2 == 0x63 && t3 == 0x31 {
        let pane = parse_pic1(chunk_data)?;
        proof {
            lemma_panes_view_push(stack@, pane);
        }
        stack.push(pane);
    } else if t0 == 0x70 && t1 == 0x61 && t2 == 0x65 && t3 == 0x31 {
        close_top(stack, roots);
    }
    Ok(())
}

/// Reads a layout file: its size, textures, materials and pane tree, with
/// each picture pane bound to the texture of its material.
#[verifier::rlimit(40)]
pub fn parse_brlyt(buf: &[u8]) -> (r: Result<Layout, BrlytError>)
    ensures
        match brlyt_state(buf@) {
            Err(e) => r == Err::<Layout, BrlytError>(e),
            Ok(st) => r matches Ok(l) && layout_holds(st, l),
        },
{
    let len = buf.len();
    if len < 0x10 || !(buf[0] == 0x52 && buf[1] == 0x4C && buf[2] == 0x59 && buf[3] == 0x54) {
        return Err(BrlytError::NotBrlyt);
    }
    let header_size = be_u16_at(buf, 12);
    let num_chunks = be_u16_at(buf, 14);
    let ghost all = chunk_list(buf@, header_size as int, num_chunks as int);
    let ghost target = fold_chunks(buf@, initial_state(), all);
    let mut width: u32 = 0;
    let mut height: u32 = 0;
    let mut textures: Vec<TextureEntry> = Vec::new();
    let mut mat1_chunk: Option<Vec<u8>> = None;
    let mut stack: Vec<Pane> = Vec::new();
    let mut final_roots: Vec<Pane> = Vec::new();
    proof {
        assert(textures_view(textures@) =~= Seq::<TextureView>::empty());
        assert(panes_view(stack@) =~= Seq::<PaneView>::empty());
        assert(panes_view(final_roots@) =~= Seq::<PaneView>::empty());
    }
    let mut current_pos: u64 = header_size as u64;
    let mut left: u16 = num_chunks;
    while left > 0
        invariant
            len == buf@.len(),
            current_pos <= len + 0x10000,
            target == fold_chunks(buf@, initial_state(), all),
            target == brlyt_state(buf@),
            target == fold_chunks(
                buf@,
                state_of(width, height, textures@, mat1_chunk, stack@, final_roots@),
                chunk_list(buf@, current_pos as int, left as int),
            ),
        ensures
            target == Ok::<LayoutState, BrlytError>(
                state_of(width, height, textures@, mat1_chunk, stack@, final_roots@),
            ),
        decreases left,
    {
        if current_pos > len as u64 || len as u64 - current_pos < 8 {
            proof {
                lemma_fold_stop(buf@, state_of(width, height, textures@, mat1_chunk, stack@, final_roots@), current_pos as int, left as int);
            }
            break;
        }
        let cp = current_pos as usize;
        let size = be_u32_at(buf, cp + 4);
        if size < 8 || len as u64 - current_pos < size as u64 {
            proof {
                lemma_fold_stop(buf@, state_of(width, height, textures@, mat1_chunk, stack@, final_roots@), current_pos as int, left as int);
            }
            break;
        }
        let chunk_data = &buf[cp..cp + size as usize];
        proof {
            lemma_fold_next(buf@, state_of(width, height, textures@, mat1_chunk, stack@, final_roots@), current_pos as int, left as int);
        }
        match step_chunk(
            chunk_data,
            &mut width,
            &mut height,
            &mut textures,
            &mut mat1_chunk,
            &mut stack,
            &mut final_roots,
        ) {
            Ok(()) => {},
            Err(e) => {
                return Err(e);
            },
        }
        current_pos = current_pos + size as u64;
        left = left - 1;
    }
    // Close every pane still open.
    let ghost st_final = state_of(width, height, textures@, mat1_chunk, stack@, final_roots@);
    #[verifier::loop_isolation(false)]
    while stack.len() > 0
        invariant
            flush(tree_of(stack@, final_roots@)) == flush(final_tree(target)),
        decreases stack.len(),
    {
        proof {
            lemma_panes_view(stack@);
        }
        close_top(&mut stack, &mut final_roots);
    }
    let (mat1_debug, materials) = match &mat1_chunk {
        Some(m) => (Some(parse_mat1_debug(m.as_slice())), parse_mat1(m.as_slice(), textures.as_slice())),
        None => (None, Vec::new()),
    };
    let mut pictures: Vec<PictureBinding> = Vec::new();
    let root = bind_materials_to_pictures(final_roots, materials.as_slice(), &mut pictures);
    proof {
        assert(pictures_view(Seq::<PictureBinding>::empty()) =~= Seq::<PictureView>::empty());
        assert(flush(tree_of(stack@, final_roots@)) == flush(st_final.tree));
        assert(panes_view(stack@) =~= Seq::<PaneView>::empty());
        if mat1_chunk is None {
            assert(materials_view(materials@) =~= Seq::<MaterialView>::empty());
        }
    }
    let layout = Layout { version: 0, width, height, textures, materials, root, pictures, mat1_debug };
    assert(layout_holds(st_final, layout));
    Ok(layout)
}

/// The pane tree of a final state; empty when the parse failed.
pub open spec fn final_tree(r: Result<LayoutState, BrlytError>) -> TreeState {
    match r {
        Ok(st) => st.tree,
        Err(_) => TreeState { stack: Seq::empty(), roots: Seq::empty() },
    }
}

/// Number of picture panes (`pic1`) in a pane and its subtree.
pub open spec fn pic_count(p: PaneView) -> nat
    decreases p,
{
    (if p.kind == "pic1"@ { 1nat } else { 0nat }) + pic_count_list(p.children)
}

/// Number of picture panes in a list of pane trees.
pub open spec fn pic_count_list(s: Seq<PaneView>) -> nat
    decreases s,
{
    if s.len() == 0 {
        0
    } else {
        pic_count_list(s.drop_last()) + pic_count(s.last())
    }
}

/// Binding keeps the shape of the pane list and records exactly one
/// picture per picture pane, anywhere in the tree.
pub proof fn law_one_picture_per_picture_pane(s: Seq<PaneView>, mats: Seq<MaterialView>)
    ensures
        bind_list(s, mats).0.len() == s.len(),
        bind_list(s, mats).1.len() == pic_count_list(s),
    decreases s,
{
    if s.len() > 0 {
        law_one_picture_per_picture_pane(s.drop_last(), mats);
        lemma_pane_pictures(s.last(), mats);
    }
}

proof fn lemma_pane_pictures(p: PaneView, mats: Seq<MaterialView>)
    ensures
        bind_pane(p, mats).1.len() == pic_count(p),
    decreases p,
{
    law_one_picture_per_picture_pane(p.children, mats);
}


/// A pane read at `pos` succeeds exactly when its 68 bytes are there. Its
/// ten floats are the big-endian words from `pos + 28` on, in the order
/// translation x, y, z, rotation x, y, z, scale x, y, width, height; it is
/// visible when bit 0 of the flag byte is set, and its alpha is the byte at
/// `pos + 2`.
pub proof fn law_pane_fields(data: Seq<u8>, pos: int, kind: Seq<char>)
    requires
        0 <= pos,
    ensures
        pane_common_spec(data, pos, kind) is Ok <==> pos + 68 <= data.len(),
        pane_common_spec(data, pos, kind) matches Ok(p) ==> {
            &&& p.x == be32_at(data, pos + 28)
            &&& p.y == be32_at(data, pos + 32)
            &&& p.z == be32_at(data, pos + 36)
            &&& p.rot_x == be32_at(data, pos + 40)
            &&& p.rot_y == be32_at(data, pos + 44)
            &&& p.rot_z == be32_at(data, pos + 48)
            &&& p.scale_x == be32_at(data, pos + 52)
            &&& p.scale_y == be32_at(data, pos + 56)
            &&& p.width == be32_at(data, pos + 60)
            &&& p.height == be32_at(data, pos + 64)
            &&& p.visible == (data[pos] % 2 == 1)
            &&& p.alpha == data[pos + 2]
            &&& p.kind == kind
            &&& p.children.len() == 0
        },
{
    if pos + 68 <= data.len() {
        lemma_be32_fits(data, pos + 28);
        lemma_be32_fits(data, pos + 32);
        lemma_be32_fits(data, pos + 36);
        lemma_be32_fits(data, pos + 40);
        lemma_be32_fits(data, pos + 44);
        lemma_be32_fits(data, pos + 48);
        lemma_be32_fits(data, pos + 52);
        lemma_be32_fits(data, pos + 56);
        lemma_be32_fits(data, pos + 60);
        lemma_be32_fits(data, pos + 64);
        let f = data[pos];
        assert((f & 1 != 0) == (f % 2 == 1)) by (bit_vector);
    }
}

/// A big-endian word read from four bytes fits in 32 bits.
proof fn lemma_be32_fits(data: Seq<u8>, off: int)
    requires
        0 <= off,
        off + 4 <= data.len(),
    ensures
        0 <= be32_at(data, off) < 0x1_0000_0000,
{
}

/// A picture pane carries the common pane fields stored from byte 8 of its
/// chunk, so its scale is the pair of big-endian words at 60 and 64.
pub proof fn law_picture_pane_fields(chunk: Seq<u8>)
    ensures
        pic1_spec(chunk) matches Ok(p) ==> {
            &&& p.scale_x == be32_at(chunk, 60)
            &&& p.scale_y == be32_at(chunk, 64)
            &&& p.width == be32_at(chunk, 68)
            &&& p.height == be32_at(chunk, 72)
            &&& p.x == be32_at(chunk, 36)
            &&& p.kind == "pic1"@
        },
{
    law_pane_fields(chunk, 8, "pic1"@);
}


/// A material's flag word is the big-endian word at `base + 0x3C`, and its
/// bit fields are: material color bit 30, channel control bit 28, blend
/// mode bit 27, alpha compare bit 23, TEV stages bits 19..23, indirect
/// stages bits 17..19, indirect matrices bits 15..17, TEV swap table bit
/// 14, texture coordinate generators bits 10..14, texture SRTs bits 6..10
/// and texture maps bits 0..4.
pub proof fn law_material_flags(chunk: Seq<u8>, index: int, base: int, textures: Seq<TextureView>)
    requires
        0 <= base,
    ensures
        material_spec(chunk, index, base, textures) is Some <==> base + 0x40 <= chunk.len(),
        material_spec(chunk, index, base, textures) matches Some(m) ==> {
            let f = be32_at(chunk, base + 0x3C);
            &&& m.flags == f
            &&& m.has_material_color == ((f / 0x4000_0000) % 2 == 1)
            &&& m.has_channel_control == ((f / 0x1000_0000) % 2 == 1)
            &&& m.has_blend_mode == ((f / 0x0800_0000) % 2 == 1)
            &&& m.has_alpha_compare == ((f / 0x0080_0000) % 2 == 1)
            &&& m.tev_stage_count == (f / 0x0008_0000) % 16
            &&& m.indirect_stage_count == (f / 0x0002_0000) % 4
            &&& m.indirect_matrix_count == (f / 0x0000_8000) % 4
            &&& m.has_tev_swap_table == ((f / 0x0000_4000) % 2 == 1)
            &&& m.tex_coord_gen_count == (f / 0x0000_0400) % 16
            &&& m.texture_srt_count == (f / 0x0000_0040) % 16
            &&& m.texture_map_count == f % 16
            &&& m.offset_in_mat1 == base
            &&& m.index == index
        },
{
    if base + 0x40 <= chunk.len() {
        lemma_be32_fits(chunk, base + 0x3C);
        let f = be32_at(chunk, base + 0x3C) as u32;
        assert(((f >> 30) & 1 != 0) == ((f / 0x4000_0000) % 2 == 1)) by (bit_vector);
        assert(((f >> 28) & 1 != 0) == ((f / 0x1000_0000) % 2 == 1)) by (bit_vector);
        assert(((f >> 27) & 1 != 0) == ((f / 0x0800_0000) % 2 == 1)) by (bit_vector);
        assert(((f >> 23) & 1 != 0) == ((f / 0x0080_0000) % 2 == 1)) by (bit_vector);
        assert(((f >> 19) & 0xF) == (f / 0x0008_0000) % 16) by (bit_vector);
        assert(((f >> 17) & 0x3) == (f / 0x0002_0000) % 4) by (bit_vector);
        assert(((f >> 15) & 0x3) == (f / 0x0000_8000) % 4) by (bit_vector);
        assert(((f >> 14) & 1 != 0) == ((f / 0x0000_4000) % 2 == 1)) by (bit_vector);
        assert(((f >> 10) & 0xF) == (f / 0x0000_0400) % 16) by (bit_vector);
        assert(((f >> 6) & 0xF) == (f / 0x0000_0040) % 16) by (bit_vector);
        assert(((f >> 0) & 0xF) == f % 16) by (bit_vector);
    }
}

/// A `pae1` chunk closes the innermost open pane: it becomes the last child
/// of the pane open around it, which keeps its other fields and its place,
/// or a top-level pane after those already finished when no pane is open
/// around it; nothing else changes.
pub proof fn law_pae1_closes_innermost(st: LayoutState, chunk: Seq<u8>)
    requires
        chunk.len() >= 8,
        chunk[0] == 0x70 && chunk[1] == 0x61 && chunk[2] == 0x65 && chunk[3] == 0x31,
        st.tree.stack.len() >= 1,
    ensures
        chunk_step(st, chunk) matches Ok(next) && {
            let s = st.tree.stack;
            let m = s.len() - 1;
            let child = s[m];
            &&& next.width == st.width && next.height == st.height
            &&& next.textures == st.textures && next.mat1 == st.mat1
            &&& if m >= 1 {
                &&& next.tree.roots == st.tree.roots
                &&& next.tree.stack.len() == m
                &&& forall|i: int| 0 <= i < m - 1 ==> #[trigger] next.tree.stack[i] == s[i]
                &&& next.tree.stack[m - 1].children == s[m - 1].children.push(child)
                &&& next.tree.stack[m - 1] == PaneView { children: s[m - 1].children.push(child), ..s[m - 1] }
            } else {
                &&& next.tree.stack.len() == 0
                &&& next.tree.roots == st.tree.roots.push(child)
            }
        },
{
    reveal(chunk_step);
    assert(has_tag(chunk, 0x70, 0x61, 0x65, 0x31));
    assert(!has_tag(chunk, 0x6C, 0x79, 0x74, 0x31));
    let s = st.tree.stack;
    let m = s.len() - 1;
    if m >= 1 {
        let rest = s.drop_last();
        assert(rest.drop_last().push(attach(rest.last(), s.last()))[m - 1] == attach(s[m - 1], s[m]));
    }
}

} // verus!
