//! Wii disc images: finding the DATA partition through the partition
//! table, locating and reading its file system table (FST), and the names
//! used when extracting a banner from an image.
use vstd::prelude::*;
use crate::brlyt::{find_nul, nul_or_end};
use crate::bytes::{be32, be32_at};
use crate::text::{
    chars_of, eq_ci, eq_ignore_case, file_extension, text_of, lower_all, lower_chars, path_extension,
    safe_stem_spec, safe_stem_with, utf8_lossy,
};

verus! {

/// A block of bytes read from a disc image.
pub struct Blob {
    pub data: Vec<u8>,
    pub size: usize,
}

impl Blob {
    /// A blob holding nothing.
    pub fn empty() -> (r: Blob)
        ensures
            r.data@.len() == 0,
            r.size == 0,
    {
        Blob { data: Vec::new(), size: 0 }
    }
}

/// What an extraction with `wit` reported.
pub struct WitExtractResult {
    pub iso_path: String,
    pub output_dir: String,
    pub stdout: String,
    pub stderr: String,
    pub status: i32,
}

// ---------------------------------------------------------------------------
// Primitive reads.
// ---------------------------------------------------------------------------

/// Decodes four bytes read from the image as a big-endian `u32`.
pub fn read_be_u32(buf: [u8; 4]) -> (r: u32)
    ensures
        r as int == be32(buf@[0], buf@[1], buf@[2], buf@[3]),
{
    let v = (buf[0] as u32) * 0x100_0000 + (buf[1] as u32) * 0x1_0000 + (buf[2] as u32) * 0x100 + (buf[3] as u32);
    v
}

/// The leniently decoded text from `start` up to the next NUL (or the end).
pub open spec fn c_string_from(data: Seq<u8>, start: int) -> Seq<char> {
    text_of(data.subrange(start, nul_or_end(data, start)))
}

/// Reads the NUL-terminated text at `start` (`start` may be the end of
/// `data`, which gives the empty text).
pub fn read_c_string(data: &[u8], start: usize) -> (r: String)
    requires
        start <= data@.len(),
    ensures
        r@ == c_string_from(data@, start as int),
{
    let end = find_nul(data, start);
    utf8_lossy(&data[start..end])
}

// ---------------------------------------------------------------------------
// The partition table.
// ---------------------------------------------------------------------------

/// Where the disc's partition information starts.
pub const PARTITION_INFO_OFFSET: u64 = 0x40000;

/// How far into a partition its DATA area starts.
pub const PARTITION_DATA_SKIP: u64 = 0x20000;

/// The state of the scan for the DATA partition.
#[derive(Debug, Clone, Copy, PartialEq, Eq, Structural)]
pub enum ScanState {
    /// Waiting for the partition count and table offset.
    Header,
    /// Waiting for entry `index` of `count`, in the table at `table`.
    Entry { index: u32, count: u32, table: u64 },
}

/// What the scan asks for next.
#[derive(Debug, Clone, Copy, PartialEq, Eq, Structural)]
pub enum ScanAction {
    /// Read the 8 bytes at `offset` and hand them to the scan.
    Read { offset: u64 },
    /// The DATA area of the DATA partition starts at this offset.
    Found { data_offset: u64 },
    /// No partition has type 0 (DATA).
    NotFound,
}

/// The first state of the scan, and its first request: the 8 bytes at 0x40000
/// (partition count, then the table offset divided by 4).
pub fn scan_start() -> (r: (ScanState, ScanAction))
    ensures
        r == (ScanState::Header, ScanAction::Read { offset: PARTITION_INFO_OFFSET }),
{
    (ScanState::Header, ScanAction::Read { offset: PARTITION_INFO_OFFSET })
}

/// The big-endian `u32` among 8 bytes read, at 0 or 4.
pub open spec fn word(b: Seq<u8>, at: int) -> int {
    be32_at(b, at)
}

/// One step of the scan: the state and the 8 bytes read give the next
/// state and request. Entries are read in table order; the first entry of
/// type 0 gives the DATA partition.
pub open spec fn scan_step_spec(state: ScanState, b: Seq<u8>) -> (ScanState, ScanAction) {
    match state {
        ScanState::Header => {
            let count = word(b, 0) as u32;
            let table = (word(b, 4) * 4) as u64;
            if count == 0 {
                (state, ScanAction::NotFound)
            } else {
                (ScanState::Entry { index: 0, count, table }, ScanAction::Read { offset: table })
            }
        },
        ScanState::Entry { index, count, table } => {
            if word(b, 4) == 0 {
                (state, ScanAction::Found { data_offset: (word(b, 0) * 4 + PARTITION_DATA_SKIP) as u64 })
            } else if index + 1 >= count {
                (state, ScanAction::NotFound)
            } else {
                (
                    ScanState::Entry { index: (index + 1) as u32, count, table },
                    ScanAction::Read { offset: (table + 8 * (index + 1)) as u64 },
                )
            }
        },
    }
}

/// Whether a state can come out of the scan: a table offset is a 32-bit
/// value times 4, and the index stays below the count.
pub open spec fn scan_state_ok(state: ScanState) -> bool {
    match state {
        ScanState::Header => true,
        ScanState::Entry { index, count, table } => index < count && table <= 0xFFFF_FFFF * 4,
    }
}

/// One step of the scan for the DATA partition.
pub fn scan_step(state: ScanState, bytes: [u8; 8]) -> (r: (ScanState, ScanAction))
    requires
        scan_state_ok(state),
    ensures
        r == scan_step_spec(state, bytes@),
        scan_state_ok(r.0),
{
    let lo: [u8; 4] = [bytes[0], bytes[1], bytes[2], bytes[3]];
    let hi: [u8; 4] = [bytes[4], bytes[5], bytes[6], bytes[7]];
    let w0 = read_be_u32(lo);
    let w1 = read_be_u32(hi);
    assert(w0 == word(bytes@, 0));
    assert(w1 == word(bytes@, 4));
    match state {
        ScanState::Header => {
            let table = (w1 as u64) * 4;
            if w0 == 0 {
                (state, ScanAction::NotFound)
            } else {
                (ScanState::Entry { index: 0, count: w0, table }, ScanAction::Read { offset: table })
            }
        },
        ScanState::Entry { index, count, table } => {
            if w1 == 0 {
                (state, ScanAction::Found { data_offset: (w0 as u64) * 4 + PARTITION_DATA_SKIP })
            } else if index + 1 >= count {
                (state, ScanAction::NotFound)
            } else {
                let next = index + 1;
                (ScanState::Entry { index: next, count, table }, ScanAction::Read { offset: table + 8 * (next as u64) })
            }
        },
    }
}

/// The outcome of a whole scan: the header bytes, then the entries of the
/// table in order.
pub open spec fn first_data_partition(entries: Seq<Seq<u8>>, n: int) -> Option<u64>
    decreases n,
{
    if n <= 0 {
        None
    } else {
        match first_data_partition(entries, n - 1) {
            Some(o) => Some(o),
            None => if word(entries[n - 1], 4) == 0 {
                Some((word(entries[n - 1], 0) * 4 + PARTITION_DATA_SKIP) as u64)
            } else {
                None
            },
        }
    }
}

/// Runs the scan over the entries read so far, from entry `index`.
pub open spec fn run_entries(state: ScanState, entries: Seq<Seq<u8>>) -> ScanAction
    decreases entries.len(),
{
    if entries.len() == 0 {
        ScanAction::NotFound
    } else {
        let (next, action) = scan_step_spec(state, entries[0]);
        match action {
            ScanAction::Read { offset } => run_entries(next, entries.drop_first()),
            other => other,
        }
    }
}

proof fn lemma_run_entries(count: u32, table: u64, entries: Seq<Seq<u8>>, k: int)
    requires
        0 <= k < count,
        entries.len() == count,
        first_data_partition(entries, k) is None,
    ensures
        run_entries(ScanState::Entry { index: k as u32, count, table }, entries.skip(k)) == match first_data_partition(
            entries,
            count as int,
        ) {
            Some(o) => ScanAction::Found { data_offset: o },
            None => ScanAction::NotFound,
        },
    decreases count - k,
{
    let st = ScanState::Entry { index: k as u32, count, table };
    let rest = entries.skip(k);
    assert(rest[0] == entries[k]);
    assert(first_data_partition(entries, k + 1) == if word(entries[k], 4) == 0 {
        Some((word(entries[k], 0) * 4 + PARTITION_DATA_SKIP) as u64)
    } else {
        None::<u64>
    });
    if word(entries[k], 4) == 0 {
        lemma_first_sticks(entries, k + 1, count as int);
    } else if k + 1 >= count {
    } else {
        assert(rest.drop_first() =~= entries.skip(k + 1));
        lemma_run_entries(count, table, entries, k + 1);
    }
}

proof fn lemma_first_sticks(entries: Seq<Seq<u8>>, n: int, m: int)
    requires
        0 <= n <= m,
        first_data_partition(entries, n) is Some,
    ensures
        first_data_partition(entries, m) == first_data_partition(entries, n),
    decreases m - n,
{
    if m > n {
        lemma_first_sticks(entries, n, m - 1);
    }
}

/// The scan, fed the header and then every entry of the table in order,
/// finds the DATA area of the first partition of type 0, and reports that
/// none exists when no entry has that type.
pub proof fn law_scan_finds_first_data_partition(header: Seq<u8>, entries: Seq<Seq<u8>>)
    requires
        header.len() == 8,
        entries.len() == word(header, 0) as u32,
        word(header, 0) > 0,
    ensures
        ({
            let (st, act) = scan_step_spec(ScanState::Header, header);
            &&& act == ScanAction::Read { offset: (word(header, 4) * 4) as u64 }
            &&& run_entries(st, entries) == match first_data_partition(entries, entries.len() as int) {
                Some(o) => ScanAction::Found { data_offset: o },
                None => ScanAction::NotFound,
            }
        }),
{
    let count = word(header, 0) as u32;
    let table = (word(header, 4) * 4) as u64;
    assert(entries.skip(0) =~= entries);
    lemma_run_entries(count, table, entries, 0);
}

// ---------------------------------------------------------------------------
// The file system table.
// ---------------------------------------------------------------------------

/// Where, inside the DATA area, the FST offset (in 4-byte units) is stored;
/// the FST size follows it.
pub const FST_POINTER_OFFSET: u64 = 0x424;

/// Size of an FST entry.
pub const FST_ENTRY_SIZE: u64 = 12;

/// The image offset of the FST of the DATA area at `data_offset`, whose
/// offset field holds `fst_offset` (in 4-byte units).
pub fn fst_image_offset(data_offset: u64, fst_offset: u32) -> (r: u64)
    requires
        data_offset + 4 * fst_offset <= u64::MAX,
    ensures
        r == data_offset + 4 * fst_offset,
{
    data_offset + 4 * (fst_offset as u64)
}

/// The image offset of the FST pointer of the DATA area at `data_offset`.
pub fn fst_pointer_offset(data_offset: u64) -> (r: u64)
    requires
        data_offset + FST_POINTER_OFFSET <= u64::MAX,
    ensures
        r == data_offset + FST_POINTER_OFFSET,
{
    data_offset + FST_POINTER_OFFSET
}

/// Number of entries the FST declares (bytes 8..12 of its root entry).
pub open spec fn fst_count(fst: Seq<u8>) -> int {
    be32_at(fst, 8)
}

/// Name offset of entry `i` (its bytes 1..4, 24 bits).
pub open spec fn fst_name_offset(fst: Seq<u8>, i: int) -> int {
    let e = 12 * i;
    fst[e + 1] * 0x1_0000 + fst[e + 2] * 0x100 + fst[e + 3]
}

/// Where the name of entry `i` starts: the string table follows the entries.
pub open spec fn fst_name_start(fst: Seq<u8>, i: int) -> int {
    12 * fst_count(fst) + fst_name_offset(fst, i)
}

/// Whether every entry the FST declares, and the start of its name, lies
/// inside the FST.
pub open spec fn fst_readable(fst: Seq<u8>) -> bool {
    &&& fst.len() >= 0x20
    &&& 12 * fst_count(fst) <= fst.len()
    &&& forall|i: int| 0 <= i < fst_count(fst) ==> #[trigger] fst_name_start(fst, i) <= fst.len()
}

/// An entry of the file system table.
pub struct FstEntry {
    pub index: u32,
    pub entry_type: u8,
    pub name_offset: u32,
    pub data_offset: u32,
    pub size: u32,
    pub name: String,
}

/// An entry as values.
pub struct FstEntryView {
    pub index: u32,
    pub entry_type: u8,
    pub name_offset: u32,
    pub data_offset: u32,
    pub size: u32,
    pub name: Seq<char>,
}

impl View for FstEntry {
    type V = FstEntryView;

    open spec fn view(&self) -> FstEntryView {
        FstEntryView {
            index: self.index,
            entry_type: self.entry_type,
            name_offset: self.name_offset,
            data_offset: self.data_offset,
            size: self.size,
            name: self.name@,
        }
    }
}

/// Entry `i` of the FST.
pub open spec fn fst_entry_spec(fst: Seq<u8>, i: int) -> FstEntryView {
    FstEntryView {
        index: i as u32,
        entry_type: fst[12 * i],
        name_offset: fst_name_offset(fst, i) as u32,
        data_offset: be32_at(fst, 12 * i + 4) as u32,
        size: be32_at(fst, 12 * i + 8) as u32,
        name: c_string_from(fst, fst_name_start(fst, i)),
    }
}

/// The name the banner is stored under.
pub open spec fn opening_bnr_name() -> Seq<char> {
    "opening.bnr"@
}

/// Among the first `n` entries, those named `opening.bnr`, in order.
pub open spec fn opening_entries(fst: Seq<u8>, n: int) -> Seq<FstEntryView>
    decreases n,
{
    if n <= 0 {
        Seq::empty()
    } else {
        let prev = opening_entries(fst, n - 1);
        let e = fst_entry_spec(fst, n - 1);
        if e.name == opening_bnr_name() {
            prev.push(e)
        } else {
            prev
        }
    }
}

/// Whether `fst_readable` holds: every declared entry and name start lies
/// inside the FST (reading an FST that fails this panics).
pub fn check_fst(fst: &[u8]) -> (r: bool)
    ensures
        r == fst_readable(fst@),
{
    let len = fst.len();
    let n = len as u64;
    if n < 0x20 {
        return false;
    }
    let count = crate::bytes::be_u32_at(fst, 8) as u64;
    if 12 * count > n {
        return false;
    }
    let mut i: u64 = 0;
    while i < count
        invariant
            n == fst@.len(),
            len == fst@.len(),
            n == len,
            n >= 0x20,
            count == fst_count(fst@),
            12 * count <= n,
            i <= count,
            forall|j: int| 0 <= j < i ==> #[trigger] fst_name_start(fst@, j) <= n,
        decreases count - i,
    {
        assert(12 * i + 12 <= len);
        let e = (12 * i) as usize;
        let name_off = (fst[e + 1] as u64) * 0x1_0000 + (fst[e + 2] as u64) * 0x100 + (fst[e + 3] as u64);
        if 12 * count + name_off > n {
            assert(fst_name_start(fst@, i as int) > n);
            return false;
        }
        i = i + 1;
    }
    true
}

/// Reads entry `i` of the FST.
fn read_fst_entry(fst: &[u8], i: u32) -> (r: FstEntry)
    requires
        fst_readable(fst@),
        i < fst_count(fst@),
    ensures
        r@ == fst_entry_spec(fst@, i as int),
{
    let len = fst.len();
    assert(12 * i + 12 <= len);
    let e = 12 * (i as usize);
    let count = crate::bytes::be_u32_at(fst, 8) as usize;
    let entry_type = fst[e];
    let name_offset = (fst[e + 1] as u32) * 0x1_0000 + (fst[e + 2] as u32) * 0x100 + (fst[e + 3] as u32);
    let data_offset = crate::bytes::be_u32_at(fst, e + 4);
    let size = crate::bytes::be_u32_at(fst, e + 8);
    assert(fst_name_start(fst@, i as int) <= fst@.len());
    let name_start = 12 * count + name_offset as usize;
    let name = read_c_string(fst, name_start);
    FstEntry { index: i, entry_type, name_offset, data_offset, size, name }
}

/// The FST entries named `opening.bnr`, in table order.
pub fn opening_bnr_entries(fst: &[u8]) -> (r: Vec<FstEntry>)
    requires
        fst_readable(fst@),
    ensures
        r@.map_values(|e: FstEntry| e@) == opening_entries(fst@, fst_count(fst@)),
{
    proof {
        reveal_strlit("opening.bnr");
    }
    let count = crate::bytes::be_u32_at(fst, 8);
    let want = chars_of("opening.bnr");
    let mut out: Vec<FstEntry> = Vec::new();
    let mut i: u32 = 0;
    while i < count
        invariant
            fst_readable(fst@),
            count == fst_count(fst@),
            i <= count,
            want@ == opening_bnr_name(),
            out@.map_values(|e: FstEntry| e@) == opening_entries(fst@, i as int),
        decreases count - i,
    {
        let entry = read_fst_entry(fst, i);
        let name = chars_of(entry.name.as_str());
        let ghost before = out@;
        if crate::text::chars_eq(name.as_slice(), want.as_slice()) {
            out.push(entry);
            assert(out@.map_values(|e: FstEntry| e@) =~= before.map_values(|e: FstEntry| e@).push(fst_entry_spec(fst@, i as int)));
        }
        i = i + 1;
    }
    out
}

/// What the first `n` entries give: entries named `opening.bnr`, each read
/// at its own index, in increasing index, and every such entry.
proof fn lemma_opening_members(fst: Seq<u8>, n: int)
    requires
        0 <= n <= fst_count(fst),
    ensures
        ({
            let r = opening_entries(fst, n);
            &&& forall|k: int|
                0 <= k < r.len() ==> 0 <= (#[trigger] r[k]).index < n && r[k] == fst_entry_spec(fst, r[k].index as int)
                    && r[k].name == opening_bnr_name()
            &&& forall|k1: int, k2: int| 0 <= k1 < k2 < r.len() ==> (#[trigger] r[k1]).index < (#[trigger] r[k2]).index
            &&& forall|i: int|
                0 <= i < n && (#[trigger] fst_entry_spec(fst, i)).name == opening_bnr_name() ==> exists|k: int|
                    0 <= k < r.len() && (#[trigger] r[k]).index == i
        }),
    decreases n,
{
    if n > 0 {
        lemma_opening_members(fst, n - 1);
        let r0 = opening_entries(fst, n - 1);
        let r = opening_entries(fst, n);
        let e = fst_entry_spec(fst, n - 1);
        assert(0 <= n - 1 < 0x1_0000_0000) by {
            assert(be32_at(fst, 8) < 0x1_0000_0000);
        }
        assert(e.index == n - 1);
        if e.name == opening_bnr_name() {
            assert(r == r0.push(e));
            assert forall|k: int| 0 <= k < r.len() implies 0 <= (#[trigger] r[k]).index < n && r[k] == fst_entry_spec(
                fst,
                r[k].index as int,
            ) && r[k].name == opening_bnr_name() by {
                if k < r0.len() {
                    assert(r[k] == r0[k]);
                }
            }
            assert forall|k1: int, k2: int| 0 <= k1 < k2 < r.len() implies (#[trigger] r[k1]).index < (
            #[trigger] r[k2]).index by {
                assert(r[k1] == r0[k1]);
                if k2 < r0.len() {
                    assert(r[k2] == r0[k2]);
                }
            }
            assert forall|i: int| 0 <= i < n && (#[trigger] fst_entry_spec(fst, i)).name == opening_bnr_name() implies exists|k: int|
                0 <= k < r.len() && (#[trigger] r[k]).index == i by {
                if i == n - 1 {
                    assert(r[r0.len() as int].index == i);
                } else {
                    let k = choose|k: int| 0 <= k < r0.len() && (#[trigger] r0[k]).index == i;
                    assert(r[k] == r0[k]);
                }
            }
        }
    }
}

/// The `opening.bnr` entries are found among all the entries the FST
/// declares (the count at byte 8), each once and in table order, each read
/// from its 12-byte entry: type byte, 24-bit name offset, data offset word,
/// size word, and the name at the name offset past the entries.
pub proof fn law_opening_entries(fst: Seq<u8>)
    ensures
        ({
            let n = be32_at(fst, 8);
            let r = opening_entries(fst, n);
            &&& forall|k: int|
                0 <= k < r.len() ==> {
                    let i = (#[trigger] r[k]).index as int;
                    let off = fst[12 * i + 1] * 0x1_0000 + fst[12 * i + 2] * 0x100 + fst[12 * i + 3];
                    &&& 0 <= i < n
                    &&& r[k].name == "opening.bnr"@
                    &&& r[k].entry_type == fst[12 * i]
                    &&& r[k].name_offset == off
                    &&& r[k].data_offset == be32_at(fst, 12 * i + 4)
                    &&& r[k].size == be32_at(fst, 12 * i + 8)
                    &&& r[k].name == c_string_from(fst, 12 * n + off)
                }
            &&& forall|k1: int, k2: int| 0 <= k1 < k2 < r.len() ==> (#[trigger] r[k1]).index < (#[trigger] r[k2]).index
            &&& forall|i: int|
                #![trigger fst[12 * i + 1]]
                0 <= i < n && c_string_from(
                    fst,
                    12 * n + fst[12 * i + 1] * 0x1_0000 + fst[12 * i + 2] * 0x100 + fst[12 * i + 3],
                ) == "opening.bnr"@ ==> exists|k: int| 0 <= k < r.len() && (#[trigger] r[k]).index == i
        }),
{
    let n = be32_at(fst, 8);
    lemma_opening_members(fst, n);
    let r = opening_entries(fst, n);
    assert forall|k: int| 0 <= k < r.len() implies {
        let i = (#[trigger] r[k]).index as int;
        let off = fst[12 * i + 1] * 0x1_0000 + fst[12 * i + 2] * 0x100 + fst[12 * i + 3];
        &&& r[k].name_offset == off
        &&& r[k].data_offset == be32_at(fst, 12 * i + 4)
        &&& r[k].size == be32_at(fst, 12 * i + 8)
    } by {
        let i = r[k].index as int;
        assert(0 <= be32_at(fst, 12 * i + 4) < 0x1_0000_0000);
        assert(0 <= be32_at(fst, 12 * i + 8) < 0x1_0000_0000);
        assert(0 <= fst_name_offset(fst, i) < 0x1_0000_0000);
    }
    assert forall|i: int|
        #![trigger fst[12 * i + 1]]
        0 <= i < n && c_string_from(
            fst,
            12 * n + fst[12 * i + 1] * 0x1_0000 + fst[12 * i + 2] * 0x100 + fst[12 * i + 3],
        ) == "opening.bnr"@ implies exists|k: int| 0 <= k < r.len() && (#[trigger] r[k]).index == i by {
        assert(fst_entry_spec(fst, i).name == opening_bnr_name());
    }
}

// ---------------------------------------------------------------------------
// Names used when extracting a banner.
// ---------------------------------------------------------------------------

/// Whether the path's extension is `ext` (given in lower case), ignoring
/// ASCII case.
pub open spec fn has_extension_spec(path: Seq<char>, ext: Seq<char>) -> bool {
    match path_extension(path) {
        Some(e) => eq_ci(e, ext),
        None => false,
    }
}

/// Whether the path's extension is `iso`, ignoring ASCII case.
pub fn is_iso_path(path: &str) -> (r: bool)
    ensures
        r == has_extension_spec(path@, "iso"@),
{
    match file_extension(path) {
        Some(e) => {
            let c = chars_of(e.as_str());
            let want = chars_of("iso");
            eq_ignore_case(c.as_slice(), want.as_slice())
        },
        None => false,
    }
}

/// Whether a file name is `opening.bnr`, ignoring ASCII case.
pub fn is_opening_bnr(file_name: &str) -> (r: bool)
    ensures
        r == eq_ci(file_name@, opening_bnr_name()),
{
    let c = chars_of(file_name);
    let want = chars_of("opening.bnr");
    eq_ignore_case(c.as_slice(), want.as_slice())
}

/// Directory name for an image's extraction: its stem ("unknown_iso" when
/// it has none) with characters outside `[A-Za-z0-9_-]` replaced by `_`.
pub fn safe_stem(path: &str) -> (r: String)
    ensures
        r@ == safe_stem_spec(path@, "unknown_iso"@),
{
    safe_stem_with(path, "unknown_iso")
}

} // verus!
