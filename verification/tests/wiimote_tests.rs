use banner_formats::wiimote::{
    button_edges, ir_enable_reports, is_wiimote, output_report, parse_buttons, parse_ir, probe_report,
    read_action, register_write_report, select_dots, should_emit, Button, Buttons, DotSelection, IrDot, ReadAction,
};

fn report(id: u8, data: &[u8]) -> Vec<u8> {
    let mut v = vec![0u8; 22];
    v[0] = id;
    v[1..1 + data.len()].copy_from_slice(data);
    v
}

#[test]
fn output_reports_are_padded() {
    assert_eq!(output_report(0x11, &[0x10]), report(0x11, &[0x10]));
    assert_eq!(output_report(0x12, &[]).len(), 22);
    assert_eq!(probe_report(), report(0x11, &[0x10]));
}

#[test]
fn register_write_layout() {
    let r = register_write_report([0xB0, 0x00, 0x1A], &[0x63, 0x03]);
    assert_eq!(r, report(0x16, &[0x04, 0xB0, 0x00, 0x1A, 0x02, 0x63, 0x03]));
}

#[test]
fn ir_bring_up_sequence() {
    let seq = ir_enable_reports();
    assert_eq!(seq.len(), 9);
    assert_eq!(seq[0], report(0x11, &[0x10]));
    assert_eq!(seq[1], report(0x13, &[0x04]));
    assert_eq!(seq[2], report(0x1A, &[0x04]));
    assert_eq!(seq[3], report(0x16, &[0x04, 0xB0, 0x00, 0x30, 0x01, 0x08]));
    assert_eq!(
        seq[4],
        report(0x16, &[0x04, 0xB0, 0x00, 0x00, 0x09, 0x02, 0x00, 0x00, 0x71, 0x01, 0x00, 0xAA, 0x00, 0x64])
    );
    assert_eq!(seq[5], report(0x16, &[0x04, 0xB0, 0x00, 0x1A, 0x02, 0x63, 0x03]));
    assert_eq!(seq[6], report(0x16, &[0x04, 0xB0, 0x00, 0x33, 0x01, 0x03]));
    assert_eq!(seq[7], seq[3]);
    assert_eq!(seq[8], report(0x12, &[0x04, 0x33]));
}

#[test]
fn wiimote_ids() {
    assert!(is_wiimote(0x057E, 0x0306));
    assert!(is_wiimote(0x057E, 0x0330));
    assert!(!is_wiimote(0x057E, 0x0337));
    assert!(!is_wiimote(0x054C, 0x0306));
}

#[test]
fn buttons_from_report() {
    let b = parse_buttons(&[0x33, 0x01 | 0x10, 0x08 | 0x80]);
    assert_eq!(
        b,
        Buttons {
            a: true,
            b: false,
            one: false,
            two: false,
            plus: true,
            minus: false,
            home: true,
            up: false,
            down: false,
            left: true,
            right: false,
        }
    );
    assert_eq!(parse_buttons(&[0x33, 0, 0]), Buttons::default());
}

fn ir_report(slots: [[u8; 3]; 4]) -> Vec<u8> {
    let mut buf = vec![0u8; 22];
    buf[0] = 0x33;
    for (i, s) in slots.iter().enumerate() {
        buf[6 + 3 * i..9 + 3 * i].copy_from_slice(s);
    }
    buf
}

#[test]
fn ir_dots_decode_high_bits() {
    // x = 0x34 | (0b01 << 8) = 0x134, y = 0x56 | (0b10 << 8) = 0x256, size 5
    let buf = ir_report([[0x34, 0x56, 0b1001_0101], [0xFF; 3], [0xFF; 3], [0x00, 0x00, 0x00]]);
    let dots = parse_ir(&buf);
    assert_eq!(dots[0], IrDot { x: 0x134, y: 0x256, size: 5, present: true });
    assert_eq!(dots[1], IrDot { x: 1023, y: 1023, size: 15, present: false });
    assert!(!dots[2].present);
    assert_eq!(dots[3], IrDot { x: 0, y: 0, size: 0, present: true });
}

#[test]
fn read_outcomes() {
    assert_eq!(read_action(None, 0, 0), ReadAction::Disconnect);
    assert_eq!(read_action(Some(0), 0, 1_500_000_000), ReadAction::Wait);
    assert_eq!(read_action(Some(0), 0, 1_500_000_001), ReadAction::Disconnect);
    assert_eq!(read_action(Some(17), 0x33, 0), ReadAction::Skip);
    assert_eq!(read_action(Some(22), 0x30, 0), ReadAction::Skip);
    assert_eq!(read_action(Some(18), 0x33, 0), ReadAction::Process);
}

#[test]
fn edges_in_reporting_order() {
    let prev = Buttons { a: true, home: false, ..Buttons::default() };
    let cur = Buttons { a: false, home: true, right: true, ..Buttons::default() };
    let edges = button_edges(&prev, &cur);
    assert_eq!(edges, vec![(Button::A, false), (Button::Home, true), (Button::Right, true)]);
    assert_eq!(edges[1].0.name(), "home");
}

#[test]
fn no_edges_when_unchanged() {
    let b = Buttons { b: true, minus: true, ..Buttons::default() };
    assert!(button_edges(&b, &b).is_empty());
}

fn dot(x: u16, size: u8) -> IrDot {
    IrDot { x, y: 300, size, present: true }
}

fn absent() -> IrDot {
    IrDot { x: 1023, y: 1023, size: 15, present: false }
}

#[test]
fn two_largest_dots_left_to_right() {
    let dots = [dot(700, 3), dot(100, 1), dot(400, 5), absent()];
    assert_eq!(select_dots(&dots), DotSelection::Pair { left: dot(400, 5), right: dot(700, 3) });
}

#[test]
fn equal_sizes_keep_slot_order() {
    let dots = [dot(500, 2), dot(200, 2), dot(300, 2), absent()];
    assert_eq!(select_dots(&dots), DotSelection::Pair { left: dot(200, 2), right: dot(500, 2) });
}

#[test]
fn single_and_no_dot() {
    let one = [absent(), absent(), dot(10, 1), absent()];
    assert_eq!(select_dots(&one), DotSelection::Single(dot(10, 1)));
    let none = [absent(); 4];
    assert_eq!(select_dots(&none), DotSelection::Nothing);
}

#[test]
fn no_report_turns_on_rumble() {
    for r in ir_enable_reports() {
        assert_eq!(r[1] & 1, 0);
    }
    assert_eq!(probe_report()[1] & 1, 0);
}

#[test]
fn update_emission_decision() {
    assert!(should_emit(false, None, false, false, false));
    assert!(!should_emit(false, Some(true), true, false, false));
    assert!(should_emit(false, Some(true), false, false, false));
    assert!(should_emit(false, Some(true), true, true, false));
    assert!(should_emit(true, Some(true), true, false, false));
    assert!(should_emit(false, Some(false), false, false, true));
}
