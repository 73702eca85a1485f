use hexdump::format::{format_hexdump, hexdump_bytes};
use hexdump::session::DumpSession;

fn as_text(bytes: &[u8]) -> String {
    String::from_utf8(bytes.to_vec()).unwrap()
}

#[test]
fn sixteen_bytes_single_line() {
    let data: Vec<u8> = (0u8..16).collect();
    let out = format_hexdump(&data, 16, 0);
    assert_eq!(
        as_text(&out),
        "00000000 0001 0203 0405 0607 0809 0a0b 0c0d 0e0f \n"
    );
}

#[test]
fn one_byte_padded_line() {
    let data = [0xffu8];
    let out = format_hexdump(&data, 1, 0);
    let expected = format!("00000000 ff{}\n", " ".repeat(35));
    assert_eq!(as_text(&out), expected);
}

#[test]
fn budget_clamps_to_five_bytes() {
    let data: Vec<u8> = (0u8..17).collect();
    let mut session = DumpSession::new(Some(5));
    let (out, done) = session.step(&data, 17);
    assert!(done);
    assert_eq!(session.offset, 5);
    let expected = format!("00000000 0001 0203 04{}\n", " ".repeat(25));
    assert_eq!(as_text(&out), expected);
}

#[test]
fn line_count_and_offset_labels() {
    let data: Vec<u8> = (0u8..33).collect();
    let out = format_hexdump(&data, 33, 0);
    let text = as_text(&out);
    let lines: Vec<&str> = text.lines().collect();
    assert_eq!(lines.len(), 3);
    assert!(lines[0].starts_with("00000000 "));
    assert!(lines[1].starts_with("00000010 "));
    assert!(lines[2].starts_with("00000020 "));
}

#[test]
fn nonzero_start_offset_label() {
    let data = [0xabu8, 0xcd];
    let out = format_hexdump(&data, 2, 0x1234);
    let expected = format!("00001234 abcd {}\n", " ".repeat(35));
    assert_eq!(as_text(&out), expected);
}

#[test]
fn empty_input_no_lines() {
    let out = format_hexdump(&[], 0, 0);
    assert!(out.is_empty());
    let out2 = hexdump_bytes(&[]);
    assert!(out2.is_empty());
}

#[test]
fn multiple_of_sixteen_no_padding() {
    let data: Vec<u8> = (0u8..32).collect();
    let out = format_hexdump(&data, 32, 0);
    let text = as_text(&out);
    assert!(!text.contains("  "));
    for line in text.lines() {
        assert_eq!(line.len(), 49);
    }
}

#[test]
fn odd_tail_no_trailing_space() {
    let data: Vec<u8> = (0u8..7).collect();
    let out = format_hexdump(&data, 7, 0);
    let expected = format!("00000000 0001 0203 0405 06{}\n", " ".repeat(20));
    assert_eq!(as_text(&out), expected);
}

#[test]
fn formatting_is_deterministic() {
    let data: Vec<u8> = (0u8..100).map(|b| b.wrapping_mul(37)).collect();
    let first = format_hexdump(&data, 100, 48);
    let second = format_hexdump(&data, 100, 48);
    assert_eq!(first, second);
}

#[test]
fn chunked_steps_match_single_dump() {
    let data: Vec<u8> = (0u8..40).map(|b| b.wrapping_mul(13)).collect();
    let mut session = DumpSession::new(None);
    let (first, done_first) = session.step(&data[..32], 32);
    assert!(!done_first);
    let (second, _) = session.step(&data[32..], 8);
    let mut chunked = first;
    chunked.extend_from_slice(&second);
    assert_eq!(chunked, hexdump_bytes(&data));
}

#[test]
fn budget_equals_prefix_dump() {
    let data: Vec<u8> = (0u8..50).map(|b| b.wrapping_add(200)).collect();
    let mut session = DumpSession::new(Some(21));
    let (out, done) = session.step(&data, 50);
    assert!(done);
    assert_eq!(out, hexdump_bytes(&data[..21]));
}

#[test]
fn zero_budget_prints_nothing() {
    let data = [1u8, 2, 3];
    let mut session = DumpSession::new(Some(0));
    let (out, done) = session.step(&data, 3);
    assert!(done);
    assert!(out.is_empty());
    assert_eq!(session.offset, 0);
}

fn decode_dump_text(text: &str) -> Vec<u8> {
    let mut bytes = Vec::new();
    for line in text.lines() {
        let fields = &line.as_bytes()[9..];
        let mut digits = Vec::new();
        for &b in fields {
            if b != b' ' {
                digits.push(b);
            }
        }
        for pair in digits.chunks(2) {
            let hi = (pair[0] as char).to_digit(16).unwrap() as u8;
            let lo = (pair[1] as char).to_digit(16).unwrap() as u8;
            bytes.push(hi * 16 + lo);
        }
    }
    bytes
}

#[test]
fn round_trip_recovers_input() {
    let data: Vec<u8> = (0u8..=255).collect();
    let out = hexdump_bytes(&data);
    assert_eq!(decode_dump_text(&as_text(&out)), data);

    let odd: Vec<u8> = (0u8..37).map(|b| b.wrapping_mul(7)).collect();
    let out_odd = format_hexdump(&odd, 37, 0);
    assert_eq!(decode_dump_text(&as_text(&out_odd)), odd);
}
