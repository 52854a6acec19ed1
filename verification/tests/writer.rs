use kdam::{encode_print_at, leave_line_bytes, Indicator, Writer};

#[test]
fn print_at_row_zero_is_carriage_return() {
    assert_eq!(encode_print_at(0, b"hi"), b"\rhi".to_vec());
    assert_eq!(encode_print_at(0, b""), b"\r".to_vec());
}

#[test]
fn print_at_emits_newlines_and_cursor_up() {
    assert_eq!(encode_print_at(1, b"x"), b"\nx\x1b[1A".to_vec());
    assert_eq!(encode_print_at(3, b"ab"), b"\n\n\nab\x1b[3A".to_vec());
}

#[test]
fn cursor_up_count_is_decimal() {
    let out = encode_print_at(12, b"");
    let mut expect: Vec<u8> = Vec::new();
    for _ in 0..12 {
        expect.push(b'\n');
    }
    expect.extend_from_slice(b"\x1b[12A");
    assert_eq!(out, expect);
    let big = encode_print_at(305, b"y");
    assert!(big.ends_with(b"\x1b[305A"));
    assert_eq!(big.len(), 305 + 1 + 6);
}

#[test]
fn scroll_back_line_is_cr_text_newline() {
    assert_eq!(leave_line_bytes(&b"abc".to_vec()), b"\rabc\n".to_vec());
    assert_eq!(leave_line_bytes(&Vec::new()), b"\r\n".to_vec());
}

#[test]
fn stderr_print_succeeds() {
    assert!(Writer::Stderr.print(b"").is_ok());
    assert!(Writer::Stderr.print_at(0, b"").is_ok());
}

#[test]
fn tty_print_reports_an_error() {
    // the verified core does not open the terminal device itself
    assert!(Writer::Tty.print(b"x").is_err());
    assert!(Writer::Tty.print_at(2, b"x").is_err());
}

#[test]
fn indicator_reports_its_state() {
    let mut i = Indicator::new(Writer::Stderr, true, b"line".to_vec());
    assert!(!i.completed());
    assert_eq!(i.render(), b"line".to_vec());
    assert_eq!(i.position, 0);
    assert!(!i.disable);
    i.done = true;
    assert!(i.completed());
}

#[test]
fn indicator_draws_through_its_writer() {
    let i = Indicator::new(Writer::Stderr, false, b"line".to_vec());
    assert!(i.refresh().is_ok());
    assert!(i.clear().is_ok());
    let t = Indicator::new(Writer::Tty, false, b"line".to_vec());
    assert!(t.refresh().is_err());
    assert!(t.clear().is_err());
}
