//! BRLAN banner animations: the `pai1` chunk with its texture list, and
//! per pane or material the animated properties and their keyframes.
use vstd::prelude::*;
use crate::brlyt::{c_string_spec, chunk_list, fixed_string_spec, has_tag, opt_str, read_c_string_at, read_fixed_string};
use crate::bytes::{be16_at, be32_at, be_u16_at, be_u32_at};
use crate::text::{
    chars_of, decimal, decimal_u8, lower_all, lower_chars, push_chars, safe_stem_spec, safe_stem_with,
    str_eq, string_from_chars,
};

verus! {

/// Keyframe interpolation: step.
pub const DATA_TYPE_STEP: u8 = 1;

/// Keyframe interpolation: Hermite.
pub const DATA_TYPE_HERMITE: u8 = 2;

/// Why an animation could not be read.
#[derive(Debug, PartialEq, Eq, Clone, Copy)]
pub enum BrlanError {
    OutOfBoundsU8 { offset: u64 },
    OutOfBoundsU16 { offset: u64 },
    OutOfBoundsU32 { offset: u64 },
    OutOfBoundsF32 { offset: u64 },
    OutOfBoundsString { offset: u64 },
    UnknownDataType { data_type: u8 },
    NotBrlan,
    NoPai1,
}

/// The value of a keyframe: a float (IEEE-754 bit pattern) for Hermite
/// keyframes, an integer for step keyframes.
#[derive(Debug, PartialEq, Eq, Clone, Copy)]
pub enum KeyValue {
    Float(u32),
    Integer(u16),
}

/// A keyframe. `frame` and `slope` hold IEEE-754 bit patterns; step
/// keyframes have slope 0.0 (bit pattern 0).
#[derive(Debug, PartialEq, Eq, Clone, Copy)]
pub struct Keyframe {
    pub frame: u32,
    pub value: KeyValue,
    pub slope: u32,
}

/// One animated property of a pane or material.
#[derive(Debug)]
pub struct AnimTarget {
    pub index: u8,
    pub target: u8,
    pub data_type: u8,
    pub property: String,
    pub keyframes: Vec<Keyframe>,
}

/// The targets of one animation tag (RLPA, RLVC, RLMC, RLVI, RLTS, RLTP, ...).
#[derive(Debug)]
pub struct AnimTag {
    pub kind: String,
    pub targets: Vec<AnimTarget>,
}

/// The tags that animate one pane or material.
#[derive(Debug)]
pub struct AnimEntry {
    pub name: String,
    pub is_material: bool,
    pub tags: Vec<AnimTag>,
}

/// A banner animation.
#[derive(Debug)]
pub struct BannerAnimation {
    pub frame_count: u16,
    pub loops: bool,
    pub textures: Vec<String>,
    pub entries: Vec<AnimEntry>,
}

/// A target as values.
pub struct TargetView {
    pub index: u8,
    pub target: u8,
    pub data_type: u8,
    pub property: Seq<char>,
    pub keyframes: Seq<Keyframe>,
}

/// A tag as values.
pub struct TagView {
    pub kind: Seq<char>,
    pub targets: Seq<TargetView>,
}

/// An entry as values.
pub struct EntryView {
    pub name: Seq<char>,
    pub is_material: bool,
    pub tags: Seq<TagView>,
}

/// An animation as values.
pub struct AnimationView {
    pub frame_count: u16,
    pub loops: bool,
    pub textures: Seq<Seq<char>>,
    pub entries: Seq<EntryView>,
}

impl View for AnimTarget {
    type V = TargetView;

    open spec fn view(&self) -> TargetView {
        TargetView {
            index: self.index,
            target: self.target,
            data_type: self.data_type,
            property: self.property@,
            keyframes: self.keyframes@,
        }
    }
}

impl View for AnimTag {
    type V = TagView;

    open spec fn view(&self) -> TagView {
        TagView { kind: self.kind@, targets: self.targets@.map_values(|t: AnimTarget| t@) }
    }
}

impl View for AnimEntry {
    type V = EntryView;

    open spec fn view(&self) -> EntryView {
        EntryView {
            name: self.name@,
            is_material: self.is_material,
            tags: self.tags@.map_values(|t: AnimTag| t@),
        }
    }
}

impl View for BannerAnimation {
    type V = AnimationView;

    open spec fn view(&self) -> AnimationView {
        AnimationView {
            frame_count: self.frame_count,
            loops: self.loops,
            textures: self.textures.deep_view(),
            entries: self.entries@.map_values(|e: AnimEntry| e@),
        }
    }
}

// ---------------------------------------------------------------------------
// Field readers.
// ---------------------------------------------------------------------------

/// The byte at `off`.
pub open spec fn u8_spec(data: Seq<u8>, off: int) -> Result<u8, BrlanError> {
    if 0 <= off < data.len() { Ok(data[off]) } else { Err(BrlanError::OutOfBoundsU8 { offset: off as u64 }) }
}

/// The big-endian `u16` at `off`.
pub open spec fn u16_spec(data: Seq<u8>, off: int) -> Result<u16, BrlanError> {
    if 0 <= off && off + 2 <= data.len() {
        Ok(be16_at(data, off) as u16)
    } else {
        Err(BrlanError::OutOfBoundsU16 { offset: off as u64 })
    }
}

/// The big-endian `u32` at `off`.
pub open spec fn u32_spec(data: Seq<u8>, off: int) -> Result<u32, BrlanError> {
    if 0 <= off && off + 4 <= data.len() {
        Ok(be32_at(data, off) as u32)
    } else {
        Err(BrlanError::OutOfBoundsU32 { offset: off as u64 })
    }
}

/// The bit pattern of the big-endian `f32` at `off`.
pub open spec fn f32_spec(data: Seq<u8>, off: int) -> Result<u32, BrlanError> {
    if 0 <= off && off + 4 <= data.len() {
        Ok(be32_at(data, off) as u32)
    } else {
        Err(BrlanError::OutOfBoundsF32 { offset: off as u64 })
    }
}

/// The text of the `len`-byte field at `off`.
pub open spec fn fixed_string_at_spec(data: Seq<u8>, off: int, len: int) -> Result<Seq<char>, BrlanError> {
    if 0 <= off && off + len <= data.len() {
        Ok(fixed_string_spec(data.subrange(off, off + len)))
    } else {
        Err(BrlanError::OutOfBoundsString { offset: off as u64 })
    }
}

/// Whether `len` bytes from `off` lie inside `data`.
fn fits(data: &[u8], off: u128, len: u128) -> (r: bool)
    ensures
        r == (off + len <= data@.len()),
        r ==> off + len <= data.len(),
{
    let n = data.len() as u128;
    off <= n && n - off >= len
}

/// Reads the byte at `off`, for offsets wider than the public readers take.
fn u8_wide(data: &[u8], off: u128) -> (r: Result<u8, BrlanError>)
    ensures
        r == u8_spec(data@, off as int),
{
    if fits(data, off, 1) {
        Ok(data[off as usize])
    } else {
        Err(BrlanError::OutOfBoundsU8 { offset: off as u64 })
    }
}

/// Reads the big-endian `u16` at `off`.
fn u16_wide(data: &[u8], off: u128) -> (r: Result<u16, BrlanError>)
    ensures
        r == u16_spec(data@, off as int),
{
    if fits(data, off, 2) {
        Ok(be_u16_at(data, off as usize))
    } else {
        Err(BrlanError::OutOfBoundsU16 { offset: off as u64 })
    }
}

/// Reads the big-endian `u32` at `off`.
fn u32_wide(data: &[u8], off: u128) -> (r: Result<u32, BrlanError>)
    ensures
        r == u32_spec(data@, off as int),
{
    if fits(data, off, 4) {
        Ok(be_u32_at(data, off as usize))
    } else {
        Err(BrlanError::OutOfBoundsU32 { offset: off as u64 })
    }
}

/// Reads the bit pattern of the big-endian `f32` at `off`.
fn f32_wide(data: &[u8], off: u128) -> (r: Result<u32, BrlanError>)
    ensures
        r == f32_spec(data@, off as int),
{
    if fits(data, off, 4) {
        Ok(be_u32_at(data, off as usize))
    } else {
        Err(BrlanError::OutOfBoundsF32 { offset: off as u64 })
    }
}

/// Reads the byte at `off`.
pub fn u8_at(data: &[u8], off: u64) -> (r: Result<u8, BrlanError>)
    ensures
        r == u8_spec(data@, off as int),
{
    u8_wide(data, off as u128)
}

/// Reads the big-endian `u16` at `off`.
pub fn u16_at(data: &[u8], off: u64) -> (r: Result<u16, BrlanError>)
    ensures
        r == u16_spec(data@, off as int),
{
    u16_wide(data, off as u128)
}

/// Reads the big-endian `u32` at `off`.
pub fn u32_at(data: &[u8], off: u64) -> (r: Result<u32, BrlanError>)
    ensures
        r == u32_spec(data@, off as int),
{
    u32_wide(data, off as u128)
}

/// Reads the bit pattern of the big-endian `f32` at `off`.
pub fn f32_at(data: &[u8], off: u64) -> (r: Result<u32, BrlanError>)
    ensures
        r == f32_spec(data@, off as int),
{
    f32_wide(data, off as u128)
}

/// Reads the text of the `len`-byte field at `off`: up to the first NUL,
/// decoded leniently, whitespace trimmed.
pub fn fixed_string_at(data: &[u8], off: u64, len: u64) -> (r: Result<String, BrlanError>)
    ensures
        match fixed_string_at_spec(data@, off as int, len as int) {
            Ok(s) => r matches Ok(t) && t@ == s,
            Err(e) => r == Err::<String, BrlanError>(e),
        },
{
    if fits(data, off as u128, len as u128) {
        let start = off as usize;
        let end = (off + len) as usize;
        Ok(read_fixed_string(&data[start..end]))
    } else {
        Err(BrlanError::OutOfBoundsString { offset: off })
    }
}

/// Reads the NUL-terminated text at `off`, when `off` lies inside `data`.
pub fn c_string_at(data: &[u8], off: u64) -> (r: Option<String>)
    ensures
        opt_str(r) == c_string_spec(data@, off as int),
{
    if off >= data.len() as u64 {
        return None;
    }
    read_c_string_at(data, off as usize)
}

/// File name for the animation's JSON: the stem of `path` ("anim" when it
/// has none) with characters outside `[A-Za-z0-9_-]` replaced by `_`.
pub fn safe_stem(path: &str) -> (r: String)
    ensures
        r@ == safe_stem_spec(path@, "anim"@),
{
    safe_stem_with(path, "anim")
}

// ---------------------------------------------------------------------------
// Property names.
// ---------------------------------------------------------------------------

/// Pane transform properties (RLPA targets 0..=9).
pub open spec fn rlpa_names() -> Seq<Seq<char>> {
    seq!["trans_x"@, "trans_y"@, "trans_z"@, "rot_x"@, "rot_y"@, "rot_z"@, "scale_x"@, "scale_y"@, "size_w"@, "size_h"@]
}

/// Material color channels (RLMC targets 0..=3).
pub open spec fn rlmc_names() -> Seq<Seq<char>> {
    seq!["mat_r"@, "mat_g"@, "mat_b"@, "mat_a"@]
}

/// Texture transform properties (RLTS targets 0..=4).
pub open spec fn rlts_names() -> Seq<Seq<char>> {
    seq!["uv_trans_u"@, "uv_trans_v"@, "uv_rot"@, "uv_scale_u"@, "uv_scale_v"@]
}

/// Vertex corners of RLVC targets 0..=15, four channels each.
pub open spec fn corner_names() -> Seq<Seq<char>> {
    seq!["lt"@, "rt"@, "lb"@, "rb"@]
}

/// Color channels of RLVC targets 0..=15.
pub open spec fn channel_names() -> Seq<Seq<char>> {
    seq!["r"@, "g"@, "b"@, "a"@]
}

/// The name the front end uses for target `target` of a tag of kind `kind`:
/// a known property name, or the lower-cased kind, `_` and the number.
#[verifier::opaque]
pub open spec fn property_spec(kind: Seq<char>, target: u8) -> Seq<char> {
    if kind == "RLPA"@ && target <= 9 {
        rlpa_names()[target as int]
    } else if kind == "RLVI"@ && target == 0 {
        "visible"@
    } else if kind == "RLVC"@ && target == 16 {
        "alpha"@
    } else if kind == "RLVC"@ && target <= 15 {
        "vtx_"@ + corner_names()[(target / 4) as int] + "_"@ + channel_names()[(target % 4) as int]
    } else if kind == "RLMC"@ && target <= 3 {
        rlmc_names()[target as int]
    } else if kind == "RLTS"@ && target <= 4 {
        rlts_names()[target as int]
    } else if kind == "RLTP"@ && target == 0 {
        "tex_pattern"@
    } else {
        lower_all(kind) + "_"@ + decimal(target as nat)
    }
}

/// An owned copy of a text.
fn lit(s: &str) -> (r: String)
    ensures
        r@ == s@,
{
    string_from_chars(chars_of(s).as_slice())
}

/// The name the front end uses for target `target` of a tag of kind `kind`.
pub fn property_name(kind: &str, target: u8) -> (r: String)
    ensures
        r@ == property_spec(kind@, target),
{
    reveal(property_spec);
    if str_eq(kind, "RLPA") && target <= 9 {
        return match target {
            0 => lit("trans_x"),
            1 => lit("trans_y"),
            2 => lit("trans_z"),
            3 => lit("rot_x"),
            4 => lit("rot_y"),
            5 => lit("rot_z"),
            6 => lit("scale_x"),
            7 => lit("scale_y"),
            8 => lit("size_w"),
            9 => lit("size_h"),
            _ => lit("size_h"),
        };
    }
    if str_eq(kind, "RLVI") && target == 0 {
        return lit("visible");
    }
    if str_eq(kind, "RLVC") && target == 16 {
        return lit("alpha");
    }
    if str_eq(kind, "RLVC") && target <= 15 {
        let corner = match target / 4 {
            0 => "lt",
            1 => "rt",
            2 => "lb",
            _ => "rb",
        };
        let channel = match target % 4 {
            0 => "r",
            1 => "g",
            2 => "b",
            _ => "a",
        };
        let mut out = lit("vtx_");
        crate::text::push_str(&mut out, corner);
        crate::text::push_str(&mut out, "_");
        crate::text::push_str(&mut out, channel);
        return out;
    }
    if str_eq(kind, "RLMC") && target <= 3 {
        return match target {
            0 => lit("mat_r"),
            1 => lit("mat_g"),
            2 => lit("mat_b"),
            3 => lit("mat_a"),
            _ => lit("mat_a"),
        };
    }
    if str_eq(kind, "RLTS") && target <= 4 {
        return match target {
            0 => lit("uv_trans_u"),
            1 => lit("uv_trans_v"),
            2 => lit("uv_rot"),
            3 => lit("uv_scale_u"),
            4 => lit("uv_scale_v"),
            _ => lit("uv_scale_v"),
        };
    }
    if str_eq(kind, "RLTP") && target == 0 {
        return lit("tex_pattern");
    }
    let k = chars_of(kind);
    let lower = lower_chars(k.as_slice());
    let mut out = string_from_chars(lower.as_slice());
    crate::text::push_str(&mut out, "_");
    let digits = decimal_u8(target);
    push_chars(&mut out, digits.as_slice());
    out
}

// ---------------------------------------------------------------------------
// Targets and keyframes.
// ---------------------------------------------------------------------------

/// The keyframe stored at `pos` for interpolation type `data_type`.
pub open spec fn keyframe_spec(chunk: Seq<u8>, data_type: u8, pos: int) -> Result<Keyframe, BrlanError> {
    if data_type == DATA_TYPE_HERMITE {
        match (f32_spec(chunk, pos), f32_spec(chunk, pos + 4), f32_spec(chunk, pos + 8)) {
            (Err(e), _, _) => Err(e),
            (Ok(_), Err(e), _) => Err(e),
            (Ok(_), Ok(_), Err(e)) => Err(e),
            (Ok(frame), Ok(value), Ok(slope)) => Ok(Keyframe { frame, value: KeyValue::Float(value), slope }),
        }
    } else if data_type == DATA_TYPE_STEP {
        match (f32_spec(chunk, pos), u16_spec(chunk, pos + 4)) {
            (Err(e), _) => Err(e),
            (Ok(_), Err(e)) => Err(e),
            (Ok(frame), Ok(value)) => Ok(Keyframe { frame, value: KeyValue::Integer(value), slope: 0 }),
        }
    } else {
        Err(BrlanError::UnknownDataType { data_type })
    }
}

/// Bytes per keyframe.
pub open spec fn keyframe_stride(data_type: u8) -> int {
    if data_type == DATA_TYPE_HERMITE { 12 } else { 8 }
}

/// The first `n` keyframes from `start`, stopping at the first that fails.
pub open spec fn keyframes_spec(chunk: Seq<u8>, data_type: u8, start: int, n: int) -> Result<Seq<Keyframe>, BrlanError>
    decreases n,
{
    if n <= 0 {
        Ok(Seq::empty())
    } else {
        match keyframes_spec(chunk, data_type, start, n - 1) {
            Err(e) => Err(e),
            Ok(prev) => match keyframe_spec(chunk, data_type, start + keyframe_stride(data_type) * (n - 1)) {
                Err(e) => Err(e),
                Ok(k) => Ok(prev.push(k)),
            },
        }
    }
}

/// The target stored at `base`, of a tag of kind `kind`.
#[verifier::opaque]
pub open spec fn target_spec(chunk: Seq<u8>, base: int, kind: Seq<char>) -> Result<TargetView, BrlanError> {
    match (u8_spec(chunk, base), u8_spec(chunk, base + 1), u8_spec(chunk, base + 2)) {
        (Err(e), _, _) => Err(e),
        (Ok(_), Err(e), _) => Err(e),
        (Ok(_), Ok(_), Err(e)) => Err(e),
        (Ok(index), Ok(target), Ok(data_type)) => match (u16_spec(chunk, base + 4), u32_spec(chunk, base + 8)) {
            (Err(e), _) => Err(e),
            (Ok(_), Err(e)) => Err(e),
            (Ok(count), Ok(kf_offset)) => match keyframes_spec(chunk, data_type, base + kf_offset, count as int) {
                Err(e) => Err(e),
                Ok(keyframes) => Ok(
                    TargetView { index, target, data_type, property: property_spec(kind, target), keyframes },
                ),
            },
        },
    }
}

/// Reads one keyframe.
fn read_keyframe(chunk: &[u8], data_type: u8, pos: u128) -> (r: Result<Keyframe, BrlanError>)
    requires
        pos <= 0x1_0000_0000_0000_0000_0000,
    ensures
        r == keyframe_spec(chunk@, data_type, pos as int),
{
    if data_type == DATA_TYPE_HERMITE {
        let frame = f32_wide(chunk, pos)?;
        let value = f32_wide(chunk, pos + 4)?;
        let slope = f32_wide(chunk, pos + 8)?;
        Ok(Keyframe { frame, value: KeyValue::Float(value), slope })
    } else if data_type == DATA_TYPE_STEP {
        let frame = f32_wide(chunk, pos)?;
        let value = u16_wide(chunk, pos + 4)?;
        Ok(Keyframe { frame, value: KeyValue::Integer(value), slope: 0 })
    } else {
        Err(BrlanError::UnknownDataType { data_type })
    }
}

/// Reads the target stored at `base`.
pub fn parse_target(chunk: &[u8], base: u64, kind: &str) -> (r: Result<AnimTarget, BrlanError>)
    ensures
        match target_spec(chunk@, base as int, kind@) {
            Ok(t) => r matches Ok(a) && a@ == t,
            Err(e) => r matches Err(f) && f == e,
        },
{
    reveal(target_spec);
    let b = base as u128;
    let index = u8_wide(chunk, b)?;
    let target = u8_wide(chunk, b + 1)?;
    let data_type = u8_wide(chunk, b + 2)?;
    let num_keyframes = u16_wide(chunk, b + 4)?;
    let kf_offset = u32_wide(chunk, b + 8)?;
    let start: u128 = b + kf_offset as u128;
    let mut keyframes: Vec<Keyframe> = Vec::new();
    let mut k: u16 = 0;
    while k < num_keyframes
        invariant
            k <= num_keyframes,
            start <= 0x2_0000_0000_0000_0000,
            start == base + kf_offset,
            u8_spec(chunk@, base as int) == Ok::<u8, BrlanError>(index),
            u8_spec(chunk@, base + 1) == Ok::<u8, BrlanError>(target),
            u8_spec(chunk@, base + 2) == Ok::<u8, BrlanError>(data_type),
            u16_spec(chunk@, base + 4) == Ok::<u16, BrlanError>(num_keyframes),
            u32_spec(chunk@, base + 8) == Ok::<u32, BrlanError>(kf_offset),
            keyframes_spec(chunk@, data_type, start as int, k as int) == Ok::<Seq<Keyframe>, BrlanError>(keyframes@),
        decreases num_keyframes - k,
    {
        let stride: u128 = if data_type == DATA_TYPE_HERMITE { 12 } else { 8 };
        let pos: u128 = start + stride * k as u128;
        assert(pos as int == start + keyframe_stride(data_type) * k);
        let kf = match read_keyframe(chunk, data_type, pos) {
            Ok(kf) => kf,
            Err(e) => {
                proof {
                    reveal(target_spec);
                    assert(keyframes_spec(chunk@, data_type, start as int, k + 1) == Err::<Seq<Keyframe>, BrlanError>(e));
                    lemma_keyframes_err_sticks(chunk@, data_type, start as int, k + 1, num_keyframes as int);
                }
                return Err(e);
            },
        };
        keyframes.push(kf);
        k = k + 1;
    }
    let property = property_name(kind, target);
    Ok(AnimTarget { index, target, data_type, property, keyframes })
}

/// Once reading keyframes fails, reading more fails the same way.
proof fn lemma_keyframes_err_sticks(chunk: Seq<u8>, data_type: u8, start: int, n: int, m: int)
    requires
        0 <= n <= m,
        keyframes_spec(chunk, data_type, start, n) is Err,
    ensures
        keyframes_spec(chunk, data_type, start, m) == keyframes_spec(chunk, data_type, start, n),
    decreases m - n,
{
    if m > n {
        lemma_keyframes_err_sticks(chunk, data_type, start, n, m - 1);
    }
}

// ---------------------------------------------------------------------------
// The pai1 chunk.
// ---------------------------------------------------------------------------

/// The first `n` texture names listed from 0x14 (each offset counts from
/// 0x14; offsets outside the chunk are skipped).
pub open spec fn pai1_textures(chunk: Seq<u8>, n: int) -> Result<Seq<Seq<char>>, BrlanError>
    decreases n,
{
    if n <= 0 {
        Ok(Seq::empty())
    } else {
        match pai1_textures(chunk, n - 1) {
            Err(e) => Err(e),
            Ok(prev) => match u32_spec(chunk, 0x14 + 4 * (n - 1)) {
                Err(e) => Err(e),
                Ok(off) => match c_string_spec(chunk, 0x14 + off) {
                    Some(name) => Ok(prev.push(name)),
                    None => Ok(prev),
                },
            },
        }
    }
}

/// The first `n` targets of the tag at `tag_base`.
pub open spec fn targets_spec(chunk: Seq<u8>, tag_base: int, kind: Seq<char>, n: int) -> Result<
    Seq<TargetView>,
    BrlanError,
>
    decreases n,
{
    if n <= 0 {
        Ok(Seq::empty())
    } else {
        match targets_spec(chunk, tag_base, kind, n - 1) {
            Err(e) => Err(e),
            Ok(prev) => match u32_spec(chunk, tag_base + 8 + 4 * (n - 1)) {
                Err(e) => Err(e),
                Ok(off) => match target_spec(chunk, tag_base + off, kind) {
                    Err(e) => Err(e),
                    Ok(t) => Ok(prev.push(t)),
                },
            },
        }
    }
}

/// Tag number `t` of the entry at `entry_base`.
#[verifier::opaque]
pub open spec fn tag_spec(chunk: Seq<u8>, entry_base: int, t: int) -> Result<TagView, BrlanError> {
    match u32_spec(chunk, entry_base + 24 + 4 * t) {
        Err(e) => Err(e),
        Ok(off) => {
            let tag_base = entry_base + off;
            match fixed_string_at_spec(chunk, tag_base, 4) {
                Err(e) => Err(e),
                Ok(kind) => match u8_spec(chunk, tag_base + 4) {
                    Err(e) => Err(e),
                    Ok(count) => match targets_spec(chunk, tag_base, kind, count as int) {
                        Err(e) => Err(e),
                        Ok(targets) => Ok(TagView { kind, targets }),
                    },
                },
            }
        },
    }
}

/// The first `n` tags of the entry at `entry_base`.
pub open spec fn tags_spec(chunk: Seq<u8>, entry_base: int, n: int) -> Result<Seq<TagView>, BrlanError>
    decreases n,
{
    if n <= 0 {
        Ok(Seq::empty())
    } else {
        match tags_spec(chunk, entry_base, n - 1) {
            Err(e) => Err(e),
            Ok(prev) => match tag_spec(chunk, entry_base, n - 1) {
                Err(e) => Err(e),
                Ok(t) => Ok(prev.push(t)),
            },
        }
    }
}

/// Entry number `i` of the entry table at `table`.
#[verifier::opaque]
pub open spec fn entry_spec(chunk: Seq<u8>, table: int, i: int) -> Result<EntryView, BrlanError> {
    match u32_spec(chunk, table + 4 * i) {
        Err(e) => Err(e),
        Ok(base) => match fixed_string_at_spec(chunk, base as int, 20) {
            Err(e) => Err(e),
            Ok(name) => match (u8_spec(chunk, base + 20), u8_spec(chunk, base + 21)) {
                (Err(e), _) => Err(e),
                (Ok(_), Err(e)) => Err(e),
                (Ok(count), Ok(mat)) => match tags_spec(chunk, base as int, count as int) {
                    Err(e) => Err(e),
                    Ok(tags) => Ok(EntryView { name, is_material: mat != 0, tags }),
                },
            },
        },
    }
}

/// The first `n` entries of the entry table at `table`.
pub open spec fn entries_spec(chunk: Seq<u8>, table: int, n: int) -> Result<Seq<EntryView>, BrlanError>
    decreases n,
{
    if n <= 0 {
        Ok(Seq::empty())
    } else {
        match entries_spec(chunk, table, n - 1) {
            Err(e) => Err(e),
            Ok(prev) => match entry_spec(chunk, table, n - 1) {
                Err(e) => Err(e),
                Ok(t) => Ok(prev.push(t)),
            },
        }
    }
}

/// The animation a `pai1` chunk describes.
pub open spec fn pai1_spec(chunk: Seq<u8>) -> Result<AnimationView, BrlanError> {
    match (u16_spec(chunk, 8), u8_spec(chunk, 0x0A), u16_spec(chunk, 0x0C), u16_spec(chunk, 0x0E), u32_spec(
        chunk,
        0x10,
    )) {
        (Err(e), _, _, _, _) => Err(e),
        (Ok(_), Err(e), _, _, _) => Err(e),
        (Ok(_), Ok(_), Err(e), _, _) => Err(e),
        (Ok(_), Ok(_), Ok(_), Err(e), _) => Err(e),
        (Ok(_), Ok(_), Ok(_), Ok(_), Err(e)) => Err(e),
        (Ok(frame_count), Ok(flags), Ok(num_timgs), Ok(num_entries), Ok(table)) => match pai1_textures(
            chunk,
            num_timgs as int,
        ) {
            Err(e) => Err(e),
            Ok(textures) => match entries_spec(chunk, table as int, num_entries as int) {
                Err(e) => Err(e),
                Ok(entries) => Ok(
                    AnimationView { frame_count, loops: flags & 1 != 0, textures, entries },
                ),
            },
        },
    }
}

proof fn lemma_textures_err(chunk: Seq<u8>, n: int, m: int)
    requires
        0 <= n <= m,
        pai1_textures(chunk, n) is Err,
    ensures
        pai1_textures(chunk, m) == pai1_textures(chunk, n),
    decreases m - n,
{
    if m > n {
        lemma_textures_err(chunk, n, m - 1);
    }
}

proof fn lemma_targets_err(chunk: Seq<u8>, tag_base: int, kind: Seq<char>, n: int, m: int)
    requires
        0 <= n <= m,
        targets_spec(chunk, tag_base, kind, n) is Err,
    ensures
        targets_spec(chunk, tag_base, kind, m) == targets_spec(chunk, tag_base, kind, n),
    decreases m - n,
{
    if m > n {
        lemma_targets_err(chunk, tag_base, kind, n, m - 1);
    }
}

proof fn lemma_tags_err(chunk: Seq<u8>, entry_base: int, n: int, m: int)
    requires
        0 <= n <= m,
        tags_spec(chunk, entry_base, n) is Err,
    ensures
        tags_spec(chunk, entry_base, m) == tags_spec(chunk, entry_base, n),
    decreases m - n,
{
    if m > n {
        lemma_tags_err(chunk, entry_base, n, m - 1);
    }
}

proof fn lemma_entries_err(chunk: Seq<u8>, table: int, n: int, m: int)
    requires
        0 <= n <= m,
        entries_spec(chunk, table, n) is Err,
    ensures
        entries_spec(chunk, table, m) == entries_spec(chunk, table, n),
    decreases m - n,
{
    if m > n {
        lemma_entries_err(chunk, table, n, m - 1);
    }
}

/// Reads tag number `t` of the entry at `entry_base`.
fn parse_tag(chunk: &[u8], entry_base: u64, t: u64) -> (r: Result<AnimTag, BrlanError>)
    requires
        entry_base <= 0x1_0000_0000,
        t < 256,
    ensures
        match tag_spec(chunk@, entry_base as int, t as int) {
            Ok(v) => r matches Ok(a) && a@ == v,
            Err(e) => r matches Err(f) && f == e,
        },
{
    reveal(tag_spec);
    let off = u32_at(chunk, entry_base + 24 + t * 4)?;
    let tag_base: u64 = entry_base + off as u64;
    let kind = fixed_string_at(chunk, tag_base, 4)?;
    let num_targets = u8_at(chunk, tag_base + 4)?;
    let mut targets: Vec<AnimTarget> = Vec::new();
    let mut g: u8 = 0;
    while g < num_targets
        invariant
            g <= num_targets,
            tag_base <= 0x2_0000_0000,
            u32_spec(chunk@, entry_base + 24 + 4 * t) == Ok::<u32, BrlanError>(off),
            tag_base == entry_base + off,
            fixed_string_at_spec(chunk@, tag_base as int, 4) == Ok::<Seq<char>, BrlanError>(kind@),
            u8_spec(chunk@, tag_base + 4) == Ok::<u8, BrlanError>(num_targets),
            targets_spec(chunk@, tag_base as int, kind@, g as int) matches Ok(sv) && sv.len() == g
                && targets@.len() == g && forall|j: int| 0 <= j < g ==> (#[trigger] targets@[j])@ == sv[j],
        decreases num_targets - g,
    {
        let ghost prev = targets_spec(chunk@, tag_base as int, kind@, g as int).unwrap();
        let toff = match u32_at(chunk, tag_base + 8 + g as u64 * 4) {
            Ok(v) => v,
            Err(e) => {
                proof {
                    reveal(tag_spec);
                    lemma_targets_err(chunk@, tag_base as int, kind@, g + 1, num_targets as int);
                }
                return Err(e);
            },
        };
        let target = match parse_target(chunk, tag_base + toff as u64, kind.as_str()) {
            Ok(v) => v,
            Err(e) => {
                proof {
                    reveal(tag_spec);
                    lemma_targets_err(chunk@, tag_base as int, kind@, g + 1, num_targets as int);
                }
                return Err(e);
            },
        };
        let ghost before = targets@;
        targets.push(target);
        g = g + 1;
        proof {
            let sv = targets_spec(chunk@, tag_base as int, kind@, g as int).unwrap();
            assert(sv == prev.push(target@));
            assert forall|j: int| 0 <= j < g implies (#[trigger] targets@[j])@ == sv[j] by {
                if j < g - 1 {
                    assert(targets@[j] == before[j]);
                }
            }
        }
    }
    proof {
        reveal(tag_spec);
        let sv = targets_spec(chunk@, tag_base as int, kind@, num_targets as int).unwrap();
        assert(targets@.map_values(|t: AnimTarget| t@) =~= sv);
    }
    Ok(AnimTag { kind, targets })
}

/// Reads entry number `i` of the entry table at `table`.
fn parse_entry(chunk: &[u8], table: u64, i: u64) -> (r: Result<AnimEntry, BrlanError>)
    requires
        table <= 0x1_0000_0000,
        i < 0x1_0000,
    ensures
        match entry_spec(chunk@, table as int, i as int) {
            Ok(v) => r matches Ok(a) && a@ == v,
            Err(e) => r matches Err(f) && f == e,
        },
{
    reveal(entry_spec);
    let base32 = u32_at(chunk, table + i * 4)?;
    let entry_base = base32 as u64;
    let name = fixed_string_at(chunk, entry_base, 20)?;
    let num_tags = u8_at(chunk, entry_base + 20)?;
    let mat = u8_at(chunk, entry_base + 21)?;
    let is_material = mat != 0;
    let mut tags: Vec<AnimTag> = Vec::new();
    assert(tags@.len() == 0);
    let mut t: u8 = 0;
    while t < num_tags
        invariant
            t <= num_tags,
            entry_base <= 0x1_0000_0000,
            entry_base == base32,
            u32_spec(chunk@, table + 4 * i) == Ok::<u32, BrlanError>(base32),
            fixed_string_at_spec(chunk@, entry_base as int, 20) == Ok::<Seq<char>, BrlanError>(name@),
            u8_spec(chunk@, entry_base + 20) == Ok::<u8, BrlanError>(num_tags),
            u8_spec(chunk@, entry_base + 21) == Ok::<u8, BrlanError>(mat),
            is_material == (mat != 0),
            tags_spec(chunk@, entry_base as int, t as int) matches Ok(sv) && sv.len() == t && tags@.len() == t
                && forall|j: int| 0 <= j < t ==> (#[trigger] tags@[j])@ == sv[j],
        decreases num_tags - t,
    {
        let ghost prev = tags_spec(chunk@, entry_base as int, t as int).unwrap();
        let tag = match parse_tag(chunk, entry_base, t as u64) {
            Ok(v) => v,
            Err(e) => {
                proof {
                    reveal(entry_spec);
                    lemma_tags_err(chunk@, entry_base as int, t + 1, num_tags as int);
                }
                return Err(e);
            },
        };
        let ghost before = tags@;
        tags.push(tag);
        t = t + 1;
        proof {
            let sv = tags_spec(chunk@, entry_base as int, t as int).unwrap();
            assert(sv == prev.push(tag@));
            assert forall|j: int| 0 <= j < t implies (#[trigger] tags@[j])@ == sv[j] by {
                if j < t - 1 {
                    assert(tags@[j] == before[j]);
                }
            }
        }
    }
    proof {
        reveal(entry_spec);
        let sv = tags_spec(chunk@, entry_base as int, num_tags as int).unwrap();
        assert(tags@.map_values(|t: AnimTag| t@) =~= sv);
    }
    Ok(AnimEntry { name, is_material, tags })
}

/// Reads a `pai1` chunk: frame count, loop flag, texture names and entries.
pub fn parse_pai1(chunk: &[u8]) -> (r: Result<BannerAnimation, BrlanError>)
    ensures
        match pai1_spec(chunk@) {
            Ok(v) => r matches Ok(a) && a@ == v,
            Err(e) => r matches Err(f) && f == e,
        },
{
    let frame_count = u16_at(chunk, 0x08)?;
    let flags = u8_at(chunk, 0x0A)?;
    let num_timgs = u16_at(chunk, 0x0C)?;
    let num_entries = u16_at(chunk, 0x0E)?;
    let table32 = u32_at(chunk, 0x10)?;
    let entry_table = table32 as u64;
    let mut textures: Vec<String> = Vec::new();
    assert(textures.deep_view() =~= Seq::<Seq<char>>::empty());
    let mut i: u16 = 0;
    while i < num_timgs
        invariant
            i <= num_timgs,
            u16_spec(chunk@, 8) == Ok::<u16, BrlanError>(frame_count),
            u8_spec(chunk@, 0x0A) == Ok::<u8, BrlanError>(flags),
            u16_spec(chunk@, 0x0C) == Ok::<u16, BrlanError>(num_timgs),
            u16_spec(chunk@, 0x0E) == Ok::<u16, BrlanError>(num_entries),
            u32_spec(chunk@, 0x10) == Ok::<u32, BrlanError>(table32),
            pai1_textures(chunk@, i as int) == Ok::<Seq<Seq<char>>, BrlanError>(textures.deep_view()),
        decreases num_timgs - i,
    {
        let off = match u32_at(chunk, 0x14 + i as u64 * 4) {
            Ok(v) => v,
            Err(e) => {
                proof {
                    lemma_textures_err(chunk@, i + 1, num_timgs as int);
                }
                return Err(e);
            },
        };
        let ghost before = textures.deep_view();
        match c_string_at(chunk, 0x14 + off as u64) {
            Some(name) => {
                textures.push(name);
                assert(textures.deep_view() =~= before.push(name@));
            },
            None => {},
        }
        i = i + 1;
    }
    let mut entries: Vec<AnimEntry> = Vec::new();
    assert(entries@.len() == 0);
    let mut k: u16 = 0;
    while k < num_entries
        invariant
            k <= num_entries,
            entry_table <= 0x1_0000_0000,
            entry_table == table32,
            u16_spec(chunk@, 8) == Ok::<u16, BrlanError>(frame_count),
            u8_spec(chunk@, 0x0A) == Ok::<u8, BrlanError>(flags),
            u16_spec(chunk@, 0x0C) == Ok::<u16, BrlanError>(num_timgs),
            u16_spec(chunk@, 0x0E) == Ok::<u16, BrlanError>(num_entries),
            u32_spec(chunk@, 0x10) == Ok::<u32, BrlanError>(table32),
            pai1_textures(chunk@, num_timgs as int) == Ok::<Seq<Seq<char>>, BrlanError>(textures.deep_view()),
            entries_spec(chunk@, entry_table as int, k as int) matches Ok(sv) && sv.len() == k && entries@.len() == k
                && forall|j: int| 0 <= j < k ==> (#[trigger] entries@[j])@ == sv[j],
        decreases num_entries - k,
    {
        let ghost prev = entries_spec(chunk@, entry_table as int, k as int).unwrap();
        let entry = match parse_entry(chunk, entry_table, k as u64) {
            Ok(v) => v,
            Err(e) => {
                proof {
                    lemma_entries_err(chunk@, entry_table as int, k + 1, num_entries as int);
                }
                return Err(e);
            },
        };
        let ghost before = entries@;
        entries.push(entry);
        k = k + 1;
        proof {
            let sv = entries_spec(chunk@, entry_table as int, k as int).unwrap();
            assert(sv == prev.push(entry@));
            assert forall|j: int| 0 <= j < k implies (#[trigger] entries@[j])@ == sv[j] by {
                if j < k - 1 {
                    assert(entries@[j] == before[j]);
                }
            }
        }
    }
    proof {
        let sv = entries_spec(chunk@, entry_table as int, num_entries as int).unwrap();
        assert(entries@.map_values(|e: AnimEntry| e@) =~= sv);
    }
    Ok(BannerAnimation { frame_count, loops: (flags & 1) != 0, textures, entries })
}

// ---------------------------------------------------------------------------
// The file.
// ---------------------------------------------------------------------------

/// The animation after reading `chunks` in order: each `pai1` chunk
/// replaces what an earlier one gave.
pub open spec fn anim_fold(buf: Seq<u8>, found: Option<AnimationView>, chunks: Seq<(int, int)>) -> Result<
    Option<AnimationView>,
    BrlanError,
>
    decreases chunks.len(),
{
    if chunks.len() == 0 {
        Ok(found)
    } else {
        let (pos, size) = chunks[0];
        let chunk = buf.subrange(pos, pos + size);
        if has_tag(chunk, 0x70, 0x61, 0x69, 0x31) {
            match pai1_spec(chunk) {
                Err(e) => Err(e),
                Ok(a) => anim_fold(buf, Some(a), chunks.drop_first()),
            }
        } else {
            anim_fold(buf, found, chunks.drop_first())
        }
    }
}

/// The animation an animation file describes: the last `pai1` chunk among
/// the chunks that the header lists.
pub open spec fn brlan_spec(buf: Seq<u8>) -> Result<AnimationView, BrlanError> {
    if buf.len() < 0x10 || !has_tag(buf, 0x52, 0x4C, 0x41, 0x4E) {
        Err(BrlanError::NotBrlan)
    } else {
        match anim_fold(buf, None, chunk_list(buf, be16_at(buf, 12), be16_at(buf, 14))) {
            Err(e) => Err(e),
            Ok(None) => Err(BrlanError::NoPai1),
            Ok(Some(a)) => Ok(a),
        }
    }
}

/// The view of an optional animation.
pub open spec fn opt_anim(a: Option<BannerAnimation>) -> Option<AnimationView> {
    match a {
        Some(x) => Some(x@),
        None => None,
    }
}

/// Reading one more chunk: its effect, then the rest.
proof fn lemma_anim_next(buf: Seq<u8>, found: Option<AnimationView>, pos: int, left: int)
    requires
        left > 0,
        pos + 8 <= buf.len(),
        be32_at(buf, pos + 4) >= 8,
        pos + be32_at(buf, pos + 4) <= buf.len(),
    ensures
        ({
            let size = be32_at(buf, pos + 4);
            let chunk = buf.subrange(pos, pos + size);
            let rest = chunk_list(buf, pos + size, left - 1);
            anim_fold(buf, found, chunk_list(buf, pos, left)) == if has_tag(chunk, 0x70, 0x61, 0x69, 0x31) {
                match pai1_spec(chunk) {
                    Err(e) => Err(e),
                    Ok(a) => anim_fold(buf, Some(a), rest),
                }
            } else {
                anim_fold(buf, found, rest)
            }
        }),
{
    let size = be32_at(buf, pos + 4);
    let rest = chunk_list(buf, pos + size, left - 1);
    assert(chunk_list(buf, pos, left) == seq![(pos, size)] + rest);
    assert((seq![(pos, size)] + rest).drop_first() =~= rest);
}

/// No further chunk fits: what was found stays.
proof fn lemma_anim_stop(buf: Seq<u8>, found: Option<AnimationView>, pos: int, left: int)
    requires
        left <= 0 || pos + 8 > buf.len() || be32_at(buf, pos + 4) < 8 || pos + be32_at(buf, pos + 4) > buf.len(),
    ensures
        anim_fold(buf, found, chunk_list(buf, pos, left)) == Ok::<Option<AnimationView>, BrlanError>(found),
{
}

/// Reads an animation file: the header, then the chunks it lists; the
/// animation is that of the last `pai1` chunk.
pub fn parse_brlan(buf: &[u8]) -> (r: Result<BannerAnimation, BrlanError>)
    ensures
        match brlan_spec(buf@) {
            Ok(v) => r matches Ok(a) && a@ == v,
            Err(e) => r matches Err(f) && f == e,
        },
{
    let len = buf.len();
    if len < 0x10 || !(buf[0] == 0x52 && buf[1] == 0x4C && buf[2] == 0x41 && buf[3] == 0x4E) {
        return Err(BrlanError::NotBrlan);
    }
    let header_size = be_u16_at(buf, 12);
    let num_chunks = be_u16_at(buf, 14);
    let ghost target = anim_fold(buf@, None, chunk_list(buf@, header_size as int, num_chunks as int));
    let mut animation: Option<BannerAnimation> = None;
    let mut current_pos: u64 = header_size as u64;
    let mut left: u16 = num_chunks;
    while left > 0
        invariant
            len == buf@.len(),
            len >= 0x10,
            has_tag(buf@, 0x52, 0x4C, 0x41, 0x4E),
            header_size == be16_at(buf@, 12),
            num_chunks == be16_at(buf@, 14),
            current_pos <= len + 0x10000,
            target == anim_fold(buf@, None, chunk_list(buf@, header_size as int, num_chunks as int)),
            target == anim_fold(buf@, opt_anim(animation), chunk_list(buf@, current_pos as int, left as int)),
        ensures
            target == Ok::<Option<AnimationView>, BrlanError>(opt_anim(animation)),
        decreases left,
    {
        if current_pos > len as u64 || len as u64 - current_pos < 8 {
            proof {
                lemma_anim_stop(buf@, opt_anim(animation), current_pos as int, left as int);
            }
            break;
        }
        let cp = current_pos as usize;
        let size = be_u32_at(buf, cp + 4);
        if size < 8 || len as u64 - current_pos < size as u64 {
            proof {
                lemma_anim_stop(buf@, opt_anim(animation), current_pos as int, left as int);
            }
            break;
        }
        let chunk = &buf[cp..cp + size as usize];
        proof {
            lemma_anim_next(buf@, opt_anim(animation), current_pos as int, left as int);
        }
        if chunk[0] == 0x70 && chunk[1] == 0x61 && chunk[2] == 0x69 && chunk[3] == 0x31 {
            match parse_pai1(chunk) {
                Ok(a) => {
                    animation = Some(a);
                },
                Err(e) => {
                    return Err(e);
                },
            }
        }
        current_pos = current_pos + size as u64;
        left = left - 1;
    }
    match animation {
        Some(a) => Ok(a),
        None => Err(BrlanError::NoPai1),
    }
}

// ---------------------------------------------------------------------------
// Laws.
// ---------------------------------------------------------------------------

/// Reading `n` keyframes gives `n` of them; step keyframes carry an integer
/// value and slope 0, Hermite keyframes a float value.
proof fn lemma_keyframes_shape(chunk: Seq<u8>, data_type: u8, start: int, n: int)
    requires
        n >= 0,
        keyframes_spec(chunk, data_type, start, n) is Ok,
    ensures
        ({
            let s = keyframes_spec(chunk, data_type, start, n)->Ok_0;
            &&& s.len() == n
            &&& forall|k: int|
                0 <= k < n ==> (data_type == DATA_TYPE_STEP ==> (#[trigger] s[k]).value is Integer && s[k].slope == 0)
                    && (data_type == DATA_TYPE_HERMITE ==> s[k].value is Float)
        }),
    decreases n,
{
    if n > 0 {
        lemma_keyframes_shape(chunk, data_type, start, n - 1);
    }
}

/// A target read from a chunk has as many keyframes as its header declares;
/// step keyframes carry an integer value and slope 0, Hermite keyframes a
/// float value.
pub proof fn law_target_keyframes(chunk: Seq<u8>, base: int, kind: Seq<char>)
    requires
        target_spec(chunk, base, kind) is Ok,
    ensures
        ({
            let t = target_spec(chunk, base, kind)->Ok_0;
            &&& t.keyframes.len() == be16_at(chunk, base + 4)
            &&& forall|k: int|
                0 <= k < t.keyframes.len() ==> (t.data_type == DATA_TYPE_STEP ==> (#[trigger] t.keyframes[k]).value is Integer
                    && t.keyframes[k].slope == 0) && (t.data_type == DATA_TYPE_HERMITE ==> t.keyframes[k].value is Float)
        }),
{
    reveal(target_spec);
    let data_type = chunk[base + 2];
    let count = be16_at(chunk, base + 4);
    let kf_offset = be32_at(chunk, base + 8) as u32;
    lemma_keyframes_shape(chunk, data_type, base + kf_offset, count);
}


/// The keyframes of a target are the records from `base` plus the offset
/// stored at `base + 8`: Hermite records (type 2) are 12 bytes, three
/// big-endian words giving frame, value and slope; step records (type 1)
/// are 8 bytes, a frame word and a 16-bit integer value, with slope 0.
pub proof fn law_keyframe_fields(chunk: Seq<u8>, base: int, kind: Seq<char>)
    requires
        target_spec(chunk, base, kind) is Ok,
    ensures
        ({
            let t = target_spec(chunk, base, kind)->Ok_0;
            let start = base + be32_at(chunk, base + 8);
            &&& t.data_type == chunk[base + 2]
            &&& t.index == chunk[base]
            &&& t.target == chunk[base + 1]
            &&& t.property == property_spec(kind, t.target)
            &&& forall|k: int|
                0 <= k < t.keyframes.len() ==> {
                    &&& (t.data_type == DATA_TYPE_HERMITE ==> {
                        &&& (#[trigger] t.keyframes[k]).frame == be32_at(chunk, start + 12 * k)
                        &&& t.keyframes[k].value == KeyValue::Float(be32_at(chunk, start + 12 * k + 4) as u32)
                        &&& t.keyframes[k].slope == be32_at(chunk, start + 12 * k + 8)
                    })
                    &&& (t.data_type == DATA_TYPE_STEP ==> {
                        &&& t.keyframes[k].frame == be32_at(chunk, start + 8 * k)
                        &&& t.keyframes[k].value == KeyValue::Integer(be16_at(chunk, start + 8 * k + 4) as u16)
                        &&& t.keyframes[k].slope == 0
                    })
                }
        }),
{
    reveal(target_spec);
    let data_type = chunk[base + 2];
    let count = be16_at(chunk, base + 4);
    let kf_offset = be32_at(chunk, base + 8) as u32;
    lemma_keyframe_records(chunk, data_type, base + kf_offset, count);
}

/// Reading `n` keyframes from `start` gives record `k` from
/// `start + stride * k`, field by field.
proof fn lemma_keyframe_records(chunk: Seq<u8>, data_type: u8, start: int, n: int)
    requires
        n >= 0,
        keyframes_spec(chunk, data_type, start, n) is Ok,
    ensures
        ({
            let s = keyframes_spec(chunk, data_type, start, n)->Ok_0;
            &&& s.len() == n
            &&& forall|k: int|
                0 <= k < n ==> {
                    &&& (data_type == DATA_TYPE_HERMITE ==> {
                        &&& (#[trigger] s[k]).frame == be32_at(chunk, start + 12 * k)
                        &&& s[k].value == KeyValue::Float(be32_at(chunk, start + 12 * k + 4) as u32)
                        &&& s[k].slope == be32_at(chunk, start + 12 * k + 8)
                    })
                    &&& (data_type == DATA_TYPE_STEP ==> {
                        &&& s[k].frame == be32_at(chunk, start + 8 * k)
                        &&& s[k].value == KeyValue::Integer(be16_at(chunk, start + 8 * k + 4) as u16)
                        &&& s[k].slope == 0
                    })
                }
        }),
    decreases n,
{
    if n > 0 {
        lemma_keyframe_records(chunk, data_type, start, n - 1);
        let pos = start + keyframe_stride(data_type) * (n - 1);
        if data_type == DATA_TYPE_HERMITE {
            assert(pos == start + 12 * (n - 1));
            lemma_be32_word(chunk, pos);
            lemma_be32_word(chunk, pos + 8);
        } else if data_type == DATA_TYPE_STEP {
            assert(pos == start + 8 * (n - 1));
            lemma_be32_word(chunk, pos);
        }
    }
}

/// A big-endian word read from four bytes in range fits in 32 bits.
proof fn lemma_be32_word(chunk: Seq<u8>, off: int)
    requires
        0 <= off,
        off + 4 <= chunk.len(),
    ensures
        0 <= be32_at(chunk, off) < 0x1_0000_0000,
{
}


proof fn lemma_entries_len(chunk: Seq<u8>, table: int, n: int)
    requires
        n >= 0,
        entries_spec(chunk, table, n) is Ok,
    ensures
        entries_spec(chunk, table, n)->Ok_0.len() == n,
    decreases n,
{
    if n > 0 {
        lemma_entries_len(chunk, table, n - 1);
    }
}

/// A `pai1` chunk gives its frame count from the big-endian half-word at 8,
/// loops when bit 0 of the byte at 10 is set, and has as many entries as
/// the half-word at 14 declares.
pub proof fn law_pai1_header(chunk: Seq<u8>)
    requires
        pai1_spec(chunk) is Ok,
    ensures
        ({
            let a = pai1_spec(chunk)->Ok_0;
            &&& a.frame_count == be16_at(chunk, 8)
            &&& a.loops == (chunk[10] % 2 == 1)
            &&& a.entries.len() == be16_at(chunk, 14)
        }),
{
    let flags = chunk[10];
    assert((flags & 1 != 0) == (flags % 2 == 1)) by (bit_vector);
    lemma_entries_len(chunk, be32_at(chunk, 16) as u32 as int, be16_at(chunk, 14) as u16 as int);
}

} // verus!
