//! Wiimote input for a DolphinBar in mode 4: the output reports that bring
//! up the IR camera, and the decoding of input report 0x33 (buttons and the
//! four IR objects in extended mode).
use vstd::prelude::*;

verus! {

/// Nintendo's USB vendor id.
pub const WIIMOTE_VID: u16 = 0x057E;

/// Product id of the Wiimote (RVL-CNT-01).
pub const WIIMOTE_PID: u16 = 0x0306;

/// Product id of the Wiimote Plus (-TR).
pub const WIIMOTE_PLUS_PID: u16 = 0x0330;

/// Length of every output report sent to the remote.
pub const OUTPUT_REPORT_LEN: usize = 22;

/// Input report with core buttons, accelerometer and 12 IR bytes.
pub const REPORT_CORE_ACCEL_IR: u8 = 0x33;

/// Shortest input report 0x33 that holds all 12 IR bytes.
pub const IR_REPORT_MIN_LEN: usize = 18;

/// The state of the remote's buttons.
#[derive(Debug, Clone, Copy, PartialEq, Eq, Structural)]
pub struct Buttons {
    pub a: bool,
    pub b: bool,
    pub one: bool,
    pub two: bool,
    pub plus: bool,
    pub minus: bool,
    pub home: bool,
    pub up: bool,
    pub down: bool,
    pub left: bool,
    pub right: bool,
}

impl Default for Buttons {
    /// No button pressed.
    fn default() -> (r: Buttons)
        ensures
            r == no_buttons(),
    {
        Buttons {
            a: false,
            b: false,
            one: false,
            two: false,
            plus: false,
            minus: false,
            home: false,
            up: false,
            down: false,
            left: false,
            right: false,
        }
    }
}

/// No button pressed.
pub open spec fn no_buttons() -> Buttons {
    Buttons {
        a: false,
        b: false,
        one: false,
        two: false,
        plus: false,
        minus: false,
        home: false,
        up: false,
        down: false,
        left: false,
        right: false,
    }
}

/// One of the remote's buttons.
#[derive(Debug, Clone, Copy, PartialEq, Eq, Structural)]
pub enum Button {
    A,
    B,
    One,
    Two,
    Plus,
    Minus,
    Home,
    Up,
    Down,
    Left,
    Right,
}

/// The name the front end knows a button by.
pub open spec fn button_name_spec(b: Button) -> Seq<char> {
    match b {
        Button::A => "a"@,
        Button::B => "b"@,
        Button::One => "one"@,
        Button::Two => "two"@,
        Button::Plus => "plus"@,
        Button::Minus => "minus"@,
        Button::Home => "home"@,
        Button::Up => "up"@,
        Button::Down => "down"@,
        Button::Left => "left"@,
        Button::Right => "right"@,
    }
}

impl Button {
    /// The name the front end knows the button by.
    pub fn name(&self) -> (r: &'static str)
        ensures
            r@ == button_name_spec(*self),
    {
        match self {
            Button::A => "a",
            Button::B => "b",
            Button::One => "one",
            Button::Two => "two",
            Button::Plus => "plus",
            Button::Minus => "minus",
            Button::Home => "home",
            Button::Up => "up",
            Button::Down => "down",
            Button::Left => "left",
            Button::Right => "right",
        }
    }
}

// ---------------------------------------------------------------------------
// Output reports.
// ---------------------------------------------------------------------------

/// An output report: the id, the data, then zeros up to 22 bytes.
pub open spec fn report_spec(report_id: u8, data: Seq<u8>) -> Seq<u8> {
    Seq::new(22, |k: int| if k == 0 { report_id } else if k <= data.len() { data[k - 1] } else { 0u8 })
}

/// Builds an output report: `report_id`, then `data`, padded with zeros to
/// 22 bytes (some HID stacks reject shorter writes).
pub fn output_report(report_id: u8, data: &[u8]) -> (r: Vec<u8>)
    requires
        data@.len() <= 21,
    ensures
        r@ == report_spec(report_id, data@),
{
    let mut buf: Vec<u8> = Vec::new();
    buf.push(report_id);
    let mut k: usize = 0;
    while k < data.len()
        invariant
            k <= data@.len() <= 21,
            buf@ == report_spec(report_id, data@).subrange(0, k + 1),
        decreases data.len() - k,
    {
        buf.push(data[k]);
        k = k + 1;
        assert(buf@ =~= report_spec(report_id, data@).subrange(0, k + 1));
    }
    while buf.len() < 22
        invariant
            data@.len() + 1 <= buf@.len() <= 22,
            buf@ == report_spec(report_id, data@).subrange(0, buf@.len() as int),
        decreases 22 - buf.len(),
    {
        buf.push(0);
        assert(buf@ =~= report_spec(report_id, data@).subrange(0, buf@.len() as int));
    }
    assert(buf@ =~= report_spec(report_id, data@));
    buf
}

/// The data of a control-register write: flag 0x04 (control-register
/// space), the 3-byte big-endian address, the length, then the bytes.
pub open spec fn register_payload_spec(addr: Seq<u8>, data: Seq<u8>) -> Seq<u8> {
    seq![0x04u8, addr[0], addr[1], addr[2], data.len() as u8] + data
}

/// Builds output report 0x16, which writes `data` to the control register
/// at `addr`.
pub fn register_write_report(addr: [u8; 3], data: &[u8]) -> (r: Vec<u8>)
    requires
        data@.len() <= 16,
    ensures
        r@ == report_spec(0x16, register_payload_spec(addr@, data@)),
{
    let mut payload: Vec<u8> = Vec::new();
    payload.push(0x04);
    payload.push(addr[0]);
    payload.push(addr[1]);
    payload.push(addr[2]);
    payload.push(data.len() as u8);
    let mut k: usize = 0;
    while k < data.len()
        invariant
            k <= data@.len() <= 16,
            payload@ == register_payload_spec(addr@, data@).subrange(0, k + 5),
        decreases data.len() - k,
    {
        payload.push(data[k]);
        k = k + 1;
        assert(payload@ =~= register_payload_spec(addr@, data@).subrange(0, k + 5));
    }
    assert(payload@ =~= register_payload_spec(addr@, data@));
    output_report(0x16, payload.as_slice())
}

/// IR sensitivity, first block (level 3).
pub open spec fn sensitivity_block1() -> Seq<u8> {
    seq![0x02u8, 0x00, 0x00, 0x71, 0x01, 0x00, 0xAA, 0x00, 0x64]
}

/// IR sensitivity, second block (level 3).
pub open spec fn sensitivity_block2() -> Seq<u8> {
    seq![0x63u8, 0x03]
}

/// The IR bring-up, in order: player-1 LED; IR camera enable (reports 0x13
/// and 0x1A); camera into a known state; both sensitivity blocks; extended
/// IR mode; finalize; continuous reporting in mode 0x33.
pub open spec fn ir_enable_spec() -> Seq<Seq<u8>> {
    seq![
        report_spec(0x11, seq![0x10u8]),
        report_spec(0x13, seq![0x04u8]),
        report_spec(0x1A, seq![0x04u8]),
        report_spec(0x16, register_payload_spec(seq![0xB0u8, 0x00, 0x30], seq![0x08u8])),
        report_spec(0x16, register_payload_spec(seq![0xB0u8, 0x00, 0x00], sensitivity_block1())),
        report_spec(0x16, register_payload_spec(seq![0xB0u8, 0x00, 0x1A], sensitivity_block2())),
        report_spec(0x16, register_payload_spec(seq![0xB0u8, 0x00, 0x33], seq![0x03u8])),
        report_spec(0x16, register_payload_spec(seq![0xB0u8, 0x00, 0x30], seq![0x08u8])),
        report_spec(0x12, seq![0x04u8, 0x33]),
    ]
}

/// The output reports that bring up the IR camera, in the order they must
/// be sent (with a short pause after each).
pub fn ir_enable_reports() -> (r: Vec<Vec<u8>>)
    ensures
        r@.len() == ir_enable_spec().len(),
        forall|k: int| 0 <= k < r@.len() ==> (#[trigger] r@[k])@ == ir_enable_spec()[k],
{
    let mut out: Vec<Vec<u8>> = Vec::new();
    let led: [u8; 1] = [0x10];
    let ir_on: [u8; 1] = [0x04];
    let state: [u8; 1] = [0x08];
    let block1: [u8; 9] = [0x02, 0x00, 0x00, 0x71, 0x01, 0x00, 0xAA, 0x00, 0x64];
    let block2: [u8; 2] = [0x63, 0x03];
    let mode: [u8; 1] = [0x03];
    let reporting: [u8; 2] = [0x04, 0x33];
    assert(led@ =~= seq![0x10u8]);
    assert(ir_on@ =~= seq![0x04u8]);
    assert(state@ =~= seq![0x08u8]);
    assert(block1@ =~= sensitivity_block1());
    assert(block2@ =~= sensitivity_block2());
    assert(mode@ =~= seq![0x03u8]);
    assert(reporting@ =~= seq![0x04u8, 0x33]);
    let a0: [u8; 3] = [0xB0, 0x00, 0x30];
    let a1: [u8; 3] = [0xB0, 0x00, 0x00];
    let a2: [u8; 3] = [0xB0, 0x00, 0x1A];
    let a3: [u8; 3] = [0xB0, 0x00, 0x33];
    assert(a0@ =~= seq![0xB0u8, 0x00, 0x30]);
    assert(a1@ =~= seq![0xB0u8, 0x00, 0x00]);
    assert(a2@ =~= seq![0xB0u8, 0x00, 0x1A]);
    assert(a3@ =~= seq![0xB0u8, 0x00, 0x33]);
    out.push(output_report(0x11, &led));
    out.push(output_report(0x13, &ir_on));
    out.push(output_report(0x1A, &ir_on));
    out.push(register_write_report(a0, &state));
    out.push(register_write_report(a1, &block1));
    out.push(register_write_report(a2, &block2));
    out.push(register_write_report(a3, &mode));
    out.push(register_write_report(a0, &state));
    out.push(output_report(0x12, &reporting));
    out
}

/// The report that probes an interface: the player-1 LED. A live slot
/// accepts the write; an empty one does not.
pub fn probe_report() -> (r: Vec<u8>)
    ensures
        r@ == report_spec(0x11, seq![0x10u8]),
{
    let led: [u8; 1] = [0x10];
    assert(led@ =~= seq![0x10u8]);
    output_report(0x11, &led)
}

/// Whether a HID device is a Wiimote (Nintendo's vendor id, Wiimote or
/// Wiimote Plus product id).
pub fn is_wiimote(vendor_id: u16, product_id: u16) -> (r: bool)
    ensures
        r == (vendor_id == WIIMOTE_VID && (product_id == WIIMOTE_PID || product_id == WIIMOTE_PLUS_PID)),
{
    vendor_id == WIIMOTE_VID && (product_id == WIIMOTE_PID || product_id == WIIMOTE_PLUS_PID)
}

// ---------------------------------------------------------------------------
// Input report 0x33.
// ---------------------------------------------------------------------------

/// The buttons held by the two button bytes of an input report.
pub open spec fn buttons_spec(b1: u8, b2: u8) -> Buttons {
    Buttons {
        left: b1 & 0x01 != 0,
        right: b1 & 0x02 != 0,
        down: b1 & 0x04 != 0,
        up: b1 & 0x08 != 0,
        plus: b1 & 0x10 != 0,
        two: b2 & 0x01 != 0,
        one: b2 & 0x02 != 0,
        b: b2 & 0x04 != 0,
        a: b2 & 0x08 != 0,
        minus: b2 & 0x10 != 0,
        home: b2 & 0x80 != 0,
    }
}

/// Decodes the buttons of an input report (bytes 1 and 2).
pub fn parse_buttons(buf: &[u8]) -> (r: Buttons)
    requires
        buf@.len() >= 3,
    ensures
        r == buttons_spec(buf@[1], buf@[2]),
{
    let b1 = buf[1];
    let b2 = buf[2];
    Buttons {
        left: b1 & 0x01 != 0,
        right: b1 & 0x02 != 0,
        down: b1 & 0x04 != 0,
        up: b1 & 0x08 != 0,
        plus: b1 & 0x10 != 0,
        two: b2 & 0x01 != 0,
        one: b2 & 0x02 != 0,
        b: b2 & 0x04 != 0,
        a: b2 & 0x08 != 0,
        minus: b2 & 0x10 != 0,
        home: b2 & 0x80 != 0,
    }
}

/// One IR object: its position in the 1024x768 camera field, its size, and
/// whether the slot holds an object at all.
#[derive(Debug, Clone, Copy, PartialEq, Eq, Structural)]
pub struct IrDot {
    pub x: u16,
    pub y: u16,
    pub size: u8,
    pub present: bool,
}

/// X of an IR object: bits 9..8 live in bits 5..4 of the third byte.
pub open spec fn ir_x(b0: u8, b2: u8) -> u16 {
    (b0 as u16) | (((b2 as u16) & 0x30) << 4u16)
}

/// Y of an IR object: bits 9..8 live in bits 7..6 of the third byte.
pub open spec fn ir_y(b1: u8, b2: u8) -> u16 {
    (b1 as u16) | (((b2 as u16) & 0xC0) << 2u16)
}

/// The IR object in slot `i` (0..4) of an input report: three bytes from
/// offset 6 + 3i. An empty slot reads as x == y == 1023.
pub open spec fn dot_spec(buf: Seq<u8>, i: int) -> IrDot {
    let o = 6 + 3 * i;
    let x = ir_x(buf[o], buf[o + 2]);
    let y = ir_y(buf[o + 1], buf[o + 2]);
    IrDot { x, y, size: buf[o + 2] & 0x0F, present: !(x == 1023 && y == 1023) }
}

/// Decodes one IR object from three bytes.
fn read_dot(b0: u8, b1: u8, b2: u8) -> (r: IrDot)
    ensures
        r.x == ir_x(b0, b2),
        r.y == ir_y(b1, b2),
        r.size == b2 & 0x0F,
        r.present == !(r.x == 1023 && r.y == 1023),
        r.x < 1024,
        r.y < 1024,
        r.size < 16,
{
    let w0 = b0 as u16;
    let w1 = b1 as u16;
    let w2 = b2 as u16;
    let x = w0 | ((w2 & 0x30) << 4);
    let y = w1 | ((w2 & 0xC0) << 2);
    let size = b2 & 0x0F;
    assert(w0 < 256 && w2 < 256 ==> (w0 | ((w2 & 0x30) << 4)) < 1024) by (bit_vector);
    assert(w1 < 256 && w2 < 256 ==> (w1 | ((w2 & 0xC0) << 2)) < 1024) by (bit_vector);
    assert(b2 & 0x0F < 16) by (bit_vector);
    IrDot { x, y, size, present: !(x == 1023 && y == 1023) }
}

/// Decodes the four IR objects of input report 0x33 (extended IR mode).
pub fn parse_ir(buf: &[u8]) -> (r: [IrDot; 4])
    requires
        buf@.len() >= 18,
    ensures
        forall|i: int| 0 <= i < 4 ==> (#[trigger] r@[i]) == dot_spec(buf@, i),
        forall|i: int| 0 <= i < 4 ==> r@[i].x < 1024 && r@[i].y < 1024 && r@[i].size < 16,
{
    let d0 = read_dot(buf[6], buf[7], buf[8]);
    let d1 = read_dot(buf[9], buf[10], buf[11]);
    let d2 = read_dot(buf[12], buf[13], buf[14]);
    let d3 = read_dot(buf[15], buf[16], buf[17]);
    let r = [d0, d1, d2, d3];
    assert(r@[0] == dot_spec(buf@, 0));
    assert(r@[1] == dot_spec(buf@, 1));
    assert(r@[2] == dot_spec(buf@, 2));
    assert(r@[3] == dot_spec(buf@, 3));
    r
}

/// A slot whose three bytes are all 0xFF holds no object.
pub proof fn law_empty_slot_absent(buf: Seq<u8>, i: int)
    requires
        0 <= i < 4,
        buf.len() >= 18,
        buf[6 + 3 * i] == 0xFF,
        buf[6 + 3 * i + 1] == 0xFF,
        buf[6 + 3 * i + 2] == 0xFF,
    ensures
        !dot_spec(buf, i).present,
{
    assert((0xFFu16 | ((0xFFu16 & 0x30) << 4u16)) == 1023u16) by (bit_vector);
    assert((0xFFu16 | ((0xFFu16 & 0xC0) << 2u16)) == 1023u16) by (bit_vector);
}

/// What to do with the outcome of one read from the remote.
#[derive(Debug, Clone, Copy, PartialEq, Eq, Structural)]
pub enum ReadAction {
    /// The remote is gone: report the disconnect and reconnect.
    Disconnect,
    /// Nothing arrived yet; keep waiting.
    Wait,
    /// Not an input report 0x33 with IR data; ignore it.
    Skip,
    /// Decode the report.
    Process,
}

/// How long no data may arrive before the remote counts as gone, in
/// nanoseconds (1.5 s).
pub const DISCONNECT_TIMEOUT_NANOS: u128 = 1_500_000_000;

/// Decides what a read means: `read` is the number of bytes read (`None`
/// when the read failed), `first_byte` the report id read, `idle_nanos` the
/// time since the last data.
pub fn read_action(read: Option<usize>, first_byte: u8, idle_nanos: u128) -> (r: ReadAction)
    ensures
        r == match read {
            None => ReadAction::Disconnect,
            Some(0) => if idle_nanos > DISCONNECT_TIMEOUT_NANOS {
                ReadAction::Disconnect
            } else {
                ReadAction::Wait
            },
            Some(n) => if n < IR_REPORT_MIN_LEN || first_byte != REPORT_CORE_ACCEL_IR {
                ReadAction::Skip
            } else {
                ReadAction::Process
            },
        },
{
    match read {
        None => ReadAction::Disconnect,
        Some(0) => if idle_nanos > DISCONNECT_TIMEOUT_NANOS {
            ReadAction::Disconnect
        } else {
            ReadAction::Wait
        },
        Some(n) => if n < IR_REPORT_MIN_LEN || first_byte != REPORT_CORE_ACCEL_IR {
            ReadAction::Skip
        } else {
            ReadAction::Process
        },
    }
}

/// Whether a cursor update is sent: when the buttons changed, when nothing
/// was sent yet, when visibility changed or the cursor `moved` beyond the
/// thresholds since the last update sent (`last_visible` is its
/// visibility), or when the heartbeat interval has passed.
pub fn should_emit(
    buttons_changed: bool,
    last_visible: Option<bool>,
    visible: bool,
    moved: bool,
    heartbeat_due: bool,
) -> (r: bool)
    ensures
        r == (buttons_changed || match last_visible {
            None => true,
            Some(v) => v != visible || moved,
        } || heartbeat_due),
{
    let changed = buttons_changed || match last_visible {
        None => true,
        Some(v) => v != visible || moved,
    };
    changed || heartbeat_due
}

// ---------------------------------------------------------------------------
// Button edges.
// ---------------------------------------------------------------------------

/// The buttons with their states, in the order their changes are reported.
pub open spec fn button_states(b: Buttons) -> Seq<(Button, bool)> {
    seq![
        (Button::A, b.a),
        (Button::B, b.b),
        (Button::One, b.one),
        (Button::Two, b.two),
        (Button::Plus, b.plus),
        (Button::Minus, b.minus),
        (Button::Home, b.home),
        (Button::Up, b.up),
        (Button::Down, b.down),
        (Button::Left, b.left),
        (Button::Right, b.right),
    ]
}

/// Among the first `n` buttons, those whose state differs, with their new state.
pub open spec fn changed_prefix(prev: Seq<(Button, bool)>, cur: Seq<(Button, bool)>, n: int) -> Seq<(Button, bool)>
    decreases n,
{
    if n <= 0 {
        Seq::empty()
    } else {
        let rest = changed_prefix(prev, cur, n - 1);
        if prev[n - 1].1 != cur[n - 1].1 {
            rest.push(cur[n - 1])
        } else {
            rest
        }
    }
}

/// The buttons that changed from `prev` to `cur`, with their new state.
pub open spec fn edges_spec(prev: Buttons, cur: Buttons) -> Seq<(Button, bool)> {
    changed_prefix(button_states(prev), button_states(cur), 11)
}

/// The states of the buttons, in reporting order.
fn states_of(b: &Buttons) -> (r: Vec<(Button, bool)>)
    ensures
        r@ == button_states(*b),
{
    let r = vec![
        (Button::A, b.a),
        (Button::B, b.b),
        (Button::One, b.one),
        (Button::Two, b.two),
        (Button::Plus, b.plus),
        (Button::Minus, b.minus),
        (Button::Home, b.home),
        (Button::Up, b.up),
        (Button::Down, b.down),
        (Button::Left, b.left),
        (Button::Right, b.right),
    ];
    assert(r@ =~= button_states(*b));
    r
}

/// The buttons whose state changed from `prev` to `cur`, each with its new
/// state, in the order a, b, one, two, plus, minus, home, up, down, left, right.
pub fn button_edges(prev: &Buttons, cur: &Buttons) -> (r: Vec<(Button, bool)>)
    ensures
        r@ == edges_spec(*prev, *cur),
{
    let ps = states_of(prev);
    let cs = states_of(cur);
    let mut out: Vec<(Button, bool)> = Vec::new();
    let mut k: usize = 0;
    while k < 11
        invariant
            k <= 11,
            ps@ == button_states(*prev),
            cs@ == button_states(*cur),
            out@ == changed_prefix(ps@, cs@, k as int),
        decreases 11 - k,
    {
        if ps[k].1 != cs[k].1 {
            out.push(cs[k]);
        }
        k = k + 1;
    }
    out
}

proof fn lemma_changed_prefix_empty(prev: Seq<(Button, bool)>, cur: Seq<(Button, bool)>, n: int)
    requires
        0 <= n <= prev.len(),
        n <= cur.len(),
    ensures
        changed_prefix(prev, cur, n).len() == 0 <==> forall|k: int| 0 <= k < n ==> prev[k].1 == cur[k].1,
    decreases n,
{
    if n > 0 {
        lemma_changed_prefix_empty(prev, cur, n - 1);
        if prev[n - 1].1 == cur[n - 1].1 {
            assert((forall|k: int| 0 <= k < n ==> prev[k].1 == cur[k].1) <==> (forall|k: int|
                0 <= k < n - 1 ==> prev[k].1 == cur[k].1));
        } else {
            assert(changed_prefix(prev, cur, n).len() == changed_prefix(prev, cur, n - 1).len() + 1);
        }
    }
}

/// No button edge is reported exactly when the button state is unchanged.
pub proof fn law_no_edges_iff_unchanged(prev: Buttons, cur: Buttons)
    ensures
        edges_spec(prev, cur).len() == 0 <==> prev == cur,
{
    let p = button_states(prev);
    let c = button_states(cur);
    lemma_changed_prefix_empty(p, c, 11);
    if forall|k: int| 0 <= k < 11 ==> p[k].1 == c[k].1 {
        assert(p[0].1 == c[0].1);
        assert(p[1].1 == c[1].1);
        assert(p[2].1 == c[2].1);
        assert(p[3].1 == c[3].1);
        assert(p[4].1 == c[4].1);
        assert(p[5].1 == c[5].1);
        assert(p[6].1 == c[6].1);
        assert(p[7].1 == c[7].1);
        assert(p[8].1 == c[8].1);
        assert(p[9].1 == c[9].1);
        assert(p[10].1 == c[10].1);
    }
}

/// Whether `btn` is held in `b`.
pub open spec fn held(b: Buttons, btn: Button) -> bool {
    match btn {
        Button::A => b.a,
        Button::B => b.b,
        Button::One => b.one,
        Button::Two => b.two,
        Button::Plus => b.plus,
        Button::Minus => b.minus,
        Button::Home => b.home,
        Button::Up => b.up,
        Button::Down => b.down,
        Button::Left => b.left,
        Button::Right => b.right,
    }
}

/// Where `btn` stands in the reporting order a, b, one, two, plus, minus,
/// home, up, down, left, right.
pub open spec fn report_rank(btn: Button) -> int {
    match btn {
        Button::A => 0,
        Button::B => 1,
        Button::One => 2,
        Button::Two => 3,
        Button::Plus => 4,
        Button::Minus => 5,
        Button::Home => 6,
        Button::Up => 7,
        Button::Down => 8,
        Button::Left => 9,
        Button::Right => 10,
    }
}

proof fn lemma_state_at(b: Buttons, btn: Button)
    ensures
        0 <= report_rank(btn) < 11,
        button_states(b)[report_rank(btn)] == (btn, held(b, btn)),
{
}

proof fn lemma_state_ranks(b: Buttons)
    ensures
        button_states(b).len() == 11,
        forall|j: int| 0 <= j < 11 ==> report_rank(#[trigger] button_states(b)[j].0) == j,
{
    let s = button_states(b);
    assert forall|j: int| 0 <= j < 11 implies report_rank(#[trigger] s[j].0) == j by {
        if j == 0 {
        } else if j == 1 {
        } else if j == 2 {
        } else if j == 3 {
        } else if j == 4 {
        } else if j == 5 {
        } else if j == 6 {
        } else if j == 7 {
        } else if j == 8 {
        } else if j == 9 {
        } else {
        }
    }
}

/// What the first `n` changes hold: entries of `cur` at positions where the
/// state differs, in increasing position, each such position once.
proof fn lemma_changed_prefix_members(p: Seq<(Button, bool)>, c: Seq<(Button, bool)>, n: int)
    requires
        0 <= n <= 11,
        p.len() == 11,
        c.len() == 11,
        forall|j: int| 0 <= j < 11 ==> report_rank(#[trigger] c[j].0) == j,
    ensures
        ({
            let r = changed_prefix(p, c, n);
            &&& forall|k: int|
                0 <= k < r.len() ==> 0 <= report_rank(#[trigger] r[k].0) < n && r[k] == c[report_rank(r[k].0)]
                    && p[report_rank(r[k].0)].1 != r[k].1
            &&& forall|k1: int, k2: int|
                0 <= k1 < k2 < r.len() ==> report_rank(#[trigger] r[k1].0) < report_rank(#[trigger] r[k2].0)
            &&& forall|j: int|
                0 <= j < n && #[trigger] p[j].1 != c[j].1 ==> exists|k: int| 0 <= k < r.len() && #[trigger] r[k] == c[j]
        }),
    decreases n,
{
    if n > 0 {
        lemma_changed_prefix_members(p, c, n - 1);
        let r0 = changed_prefix(p, c, n - 1);
        let r = changed_prefix(p, c, n);
        if p[n - 1].1 != c[n - 1].1 {
            assert(r == r0.push(c[n - 1]));
            assert(report_rank(c[n - 1].0) == n - 1);
            assert forall|j: int| 0 <= j < n && #[trigger] p[j].1 != c[j].1 implies exists|k: int|
                0 <= k < r.len() && #[trigger] r[k] == c[j] by {
                if j == n - 1 {
                    assert(r[r0.len() as int] == c[j]);
                } else {
                    let k = choose|k: int| 0 <= k < r0.len() && #[trigger] r0[k] == c[j];
                    assert(r[k] == c[j]);
                }
            }
            assert forall|k1: int, k2: int| 0 <= k1 < k2 < r.len() implies report_rank(#[trigger] r[k1].0)
                < report_rank(#[trigger] r[k2].0) by {
                if k2 < r0.len() {
                    assert(r[k1] == r0[k1] && r[k2] == r0[k2]);
                } else {
                    assert(r[k1] == r0[k1]);
                }
            }
            assert forall|k: int| 0 <= k < r.len() implies 0 <= report_rank(#[trigger] r[k].0) < n && r[k] == c[report_rank(r[k].0)]
                && p[report_rank(r[k].0)].1 != r[k].1 by {
                if k < r0.len() {
                    assert(r[k] == r0[k]);
                }
            }
        }
    }
}

/// Each reported edge names a button whose state changed and carries its
/// new state; every button whose state changed is reported; edges come in
/// the order a, b, one, two, plus, minus, home, up, down, left, right, so no
/// button twice.
pub proof fn law_edges_report_changes(prev: Buttons, cur: Buttons)
    ensures
        ({
            let e = edges_spec(prev, cur);
            &&& forall|k: int|
                0 <= k < e.len() ==> #[trigger] held(cur, e[k].0) == e[k].1 && held(prev, e[k].0) != e[k].1
            &&& forall|btn: Button|
                #[trigger] held(prev, btn) != held(cur, btn) ==> exists|k: int| 0 <= k < e.len() && e[k].0 == btn
            &&& forall|k1: int, k2: int|
                0 <= k1 < k2 < e.len() ==> report_rank(#[trigger] e[k1].0) < report_rank(#[trigger] e[k2].0)
        }),
{
    let p = button_states(prev);
    let c = button_states(cur);
    lemma_state_ranks(cur);
    lemma_changed_prefix_members(p, c, 11);
    let e = edges_spec(prev, cur);
    assert forall|k: int| 0 <= k < e.len() implies #[trigger] held(cur, e[k].0) == e[k].1 && held(prev, e[k].0)
        != e[k].1 by {
        lemma_state_at(cur, e[k].0);
        lemma_state_at(prev, e[k].0);
    }
    assert forall|btn: Button| #[trigger] held(prev, btn) != held(cur, btn) implies exists|k: int|
        0 <= k < e.len() && e[k].0 == btn by {
        lemma_state_at(cur, btn);
        lemma_state_at(prev, btn);
        let j = report_rank(btn);
        assert(p[j].1 != c[j].1);
        let k = choose|k: int| 0 <= k < e.len() && #[trigger] e[k] == c[j];
        assert(e[k].0 == btn);
    }
}

// ---------------------------------------------------------------------------
// Choosing the IR dots that make the pointer.
// ---------------------------------------------------------------------------

/// Which dots the pointer is computed from.
#[derive(Debug, Clone, Copy, PartialEq, Eq, Structural)]
pub enum DotSelection {
    /// The two largest present dots, ordered left to right.
    Pair { left: IrDot, right: IrDot },
    /// The only present dot.
    Single(IrDot),
    /// No dot in view.
    Nothing,
}

/// Number of present dots among the first `n`.
pub open spec fn present_count(dots: Seq<IrDot>, n: int) -> int
    decreases n,
{
    if n <= 0 {
        0
    } else {
        present_count(dots, n - 1) + if dots[n - 1].present { 1int } else { 0int }
    }
}

/// Whether dot `i` comes before dot `j` when the dots are sorted by size,
/// largest first, keeping the slot order among equal sizes.
pub open spec fn ranks_before(dots: Seq<IrDot>, i: int, j: int) -> bool {
    dots[i].size > dots[j].size || (dots[i].size == dots[j].size && i < j)
}

/// Dot `i` is the present dot that sorts first, leaving out slot `skip`.
pub open spec fn is_best_except(dots: Seq<IrDot>, i: int, skip: int) -> bool {
    &&& 0 <= i < 4
    &&& i != skip
    &&& dots[i].present
    &&& forall|j: int| 0 <= j < 4 && j != i && j != skip && dots[j].present ==> ranks_before(dots, i, j)
}

/// The two dots in left-to-right order (the first stays first on equal x).
pub open spec fn left_right(a: IrDot, b: IrDot) -> DotSelection {
    if a.x > b.x {
        DotSelection::Pair { left: b, right: a }
    } else {
        DotSelection::Pair { left: a, right: b }
    }
}

/// Whether `r` is the selection for `dots`: with two or more present dots,
/// the two that sort first by size; with one, that dot; else nothing.
pub open spec fn selection_holds(dots: Seq<IrDot>, r: DotSelection) -> bool {
    let n = present_count(dots, 4);
    if n >= 2 {
        exists|f: int, s: int| is_best_except(dots, f, -1) && is_best_except(dots, s, f) && r == left_right(dots[f], dots[s])
    } else if n == 1 {
        exists|f: int| 0 <= f < 4 && dots[f].present && r == DotSelection::Single(dots[f])
    } else {
        r == DotSelection::Nothing
    }
}

/// The present dot that sorts first, leaving out `skip`.
fn best_except(dots: &[IrDot; 4], skip: usize) -> (r: Option<usize>)
    requires
        skip <= 4,
    ensures
        r matches Some(i) ==> is_best_except(dots@, i as int, skip as int),
        r is None ==> forall|j: int| 0 <= j < 4 && j != skip ==> !dots@[j].present,
{
    let mut best: Option<usize> = None;
    let mut j: usize = 0;
    while j < 4
        invariant
            j <= 4,
            skip <= 4,
            best matches Some(i) ==> i < j && i != skip && dots@[i as int].present && forall|k: int|
                0 <= k < j && k != i && k != skip && dots@[k].present ==> ranks_before(dots@, i as int, k),
            best is None ==> forall|k: int| 0 <= k < j && k != skip ==> !dots@[k].present,
        decreases 4 - j,
    {
        if j != skip && dots[j].present {
            match best {
                None => {
                    best = Some(j);
                },
                Some(i) => {
                    if dots[j].size > dots[i].size {
                        proof {
                            assert forall|k: int|
                                0 <= k < j + 1 && k != j && k != skip && dots@[k].present implies ranks_before(
                                dots@,
                                j as int,
                                k,
                            ) by {
                                if k != i {
                                    assert(ranks_before(dots@, i as int, k));
                                }
                            }
                        }
                        best = Some(j);
                    }
                },
            }
        }
        j = j + 1;
    }
    best
}

proof fn lemma_present_count(dots: Seq<IrDot>)
    requires
        dots.len() == 4,
    ensures
        present_count(dots, 4) == (if dots[0].present { 1int } else { 0int }) + (if dots[1].present { 1int } else { 0int })
            + (if dots[2].present { 1int } else { 0int }) + (if dots[3].present { 1int } else { 0int }),
{
    reveal_with_fuel(present_count, 5);
}

/// Chooses the dots the pointer is computed from: the two present dots
/// with the largest size (the earlier slot first among equal sizes),
/// ordered left to right; or the single present dot; or none.
pub fn select_dots(dots: &[IrDot; 4]) -> (r: DotSelection)
    ensures
        selection_holds(dots@, r),
{
    proof {
        lemma_present_count(dots@);
    }
    let first = match best_except(dots, 4) {
        None => {
            return DotSelection::Nothing;
        },
        Some(f) => f,
    };
    match best_except(dots, first) {
        None => DotSelection::Single(dots[first]),
        Some(s) => {
            let a = dots[first];
            let b = dots[s];
            let r = if a.x > b.x {
                DotSelection::Pair { left: b, right: a }
            } else {
                DotSelection::Pair { left: a, right: b }
            };
            assert(is_best_except(dots@, first as int, -1));
            assert(r == left_right(dots@[first as int], dots@[s as int]));
            r
        },
    }
}

/// A selected pair is ordered left to right, and both dots are present.
pub proof fn law_pair_left_to_right(dots: Seq<IrDot>, left: IrDot, right: IrDot)
    requires
        selection_holds(dots, DotSelection::Pair { left, right }),
    ensures
        left.x <= right.x,
        left.present && right.present,
{
    let n = present_count(dots, 4);
    if n >= 2 {
        let (f, s) = choose|f: int, s: int|
            is_best_except(dots, f, -1) && is_best_except(dots, s, f) && DotSelection::Pair { left, right } == left_right(
                dots[f],
                dots[s],
            );
    }
}

/// Bit 0 of an output report's first data byte drives the rumble motor:
/// neither the IR bring-up nor the probe ever sets it.
pub proof fn law_reports_leave_rumble_off()
    ensures
        forall|k: int| 0 <= k < ir_enable_spec().len() ==> (#[trigger] ir_enable_spec()[k])[1] % 2 == 0,
        report_spec(0x11, seq![0x10u8])[1] % 2 == 0,
{
    let s = ir_enable_spec();
    assert(s[0][1] == 0x10);
    assert(s[1][1] == 0x04);
    assert(s[2][1] == 0x04);
    assert(s[3][1] == 0x04);
    assert(s[4][1] == 0x04);
    assert(s[5][1] == 0x04);
    assert(s[6][1] == 0x04);
    assert(s[7][1] == 0x04);
    assert(s[8][1] == 0x04);
}


/// The buttons follow the core-buttons word of the Wiimote: bytes 1 and 2
/// of the report read big-endian, with Left 0x0100, Right 0x0200, Down
/// 0x0400, Up 0x0800, Plus 0x1000, Two 0x0001, One 0x0002, B 0x0004,
/// A 0x0008, Minus 0x0010 and Home 0x0080; each button is its own bit.
pub proof fn law_core_button_word(b1: u8, b2: u8)
    ensures
        ({
            let w: u16 = ((b1 as u16) << 8u16) | (b2 as u16);
            let b = buttons_spec(b1, b2);
            &&& b.left == (w & 0x0100 != 0)
            &&& b.right == (w & 0x0200 != 0)
            &&& b.down == (w & 0x0400 != 0)
            &&& b.up == (w & 0x0800 != 0)
            &&& b.plus == (w & 0x1000 != 0)
            &&& b.two == (w & 0x0001 != 0)
            &&& b.one == (w & 0x0002 != 0)
            &&& b.b == (w & 0x0004 != 0)
            &&& b.a == (w & 0x0008 != 0)
            &&& b.minus == (w & 0x0010 != 0)
            &&& b.home == (w & 0x0080 != 0)
        }),
{
    let w: u16 = ((b1 as u16) << 8u16) | (b2 as u16);
    assert((w & 0x0100 != 0) == (b1 & 0x01 != 0) && (w & 0x0200 != 0) == (b1 & 0x02 != 0) && (w & 0x0400 != 0)
        == (b1 & 0x04 != 0) && (w & 0x0800 != 0) == (b1 & 0x08 != 0) && (w & 0x1000 != 0) == (b1 & 0x10 != 0))
        by (bit_vector)
        requires
            w == ((b1 as u16) << 8u16) | (b2 as u16),
    ;
    assert((w & 0x0001 != 0) == (b2 & 0x01 != 0) && (w & 0x0002 != 0) == (b2 & 0x02 != 0) && (w & 0x0004 != 0)
        == (b2 & 0x04 != 0) && (w & 0x0008 != 0) == (b2 & 0x08 != 0) && (w & 0x0010 != 0) == (b2 & 0x10 != 0)
        && (w & 0x0080 != 0) == (b2 & 0x80 != 0)) by (bit_vector)
        requires
            w == ((b1 as u16) << 8u16) | (b2 as u16),
    ;
}


/// IR object `i` (0..4) of report 0x33 sits in the three bytes from
/// `6 + 3i`: X is the first byte plus 256 times bits 4..5 of the third,
/// Y the second byte plus 256 times bits 6..7 of the third, the size is
/// the low four bits of the third, and the slot is empty exactly when X
/// and Y are both 1023.
pub proof fn law_ir_object_fields(buf: Seq<u8>, i: int)
    requires
        0 <= i < 4,
        buf.len() >= 18,
    ensures
        ({
            let o = 6 + 3 * i;
            let d = dot_spec(buf, i);
            &&& d.x == buf[o] + 256 * ((buf[o + 2] / 16) % 4)
            &&& d.y == buf[o + 1] + 256 * (buf[o + 2] / 64)
            &&& d.size == buf[o + 2] % 16
            &&& d.present == !(d.x == 1023 && d.y == 1023)
        }),
{
    let o = 6 + 3 * i;
    let b0 = buf[o];
    let b1 = buf[o + 1];
    let b2 = buf[o + 2];
    assert(((b0 as u16) | (((b2 as u16) & 0x30) << 4u16)) == (b0 as u16) + 256 * (((b2 as u16) / 16) % 4))
        by (bit_vector);
    assert(((b1 as u16) | (((b2 as u16) & 0xC0) << 2u16)) == (b1 as u16) + 256 * ((b2 as u16) / 64))
        by (bit_vector);
    assert((b2 & 0x0F) == b2 % 16) by (bit_vector);
}

} // verus!
