use hexdump::dump;
use hexdump::read_step;
use hexdump::ReadAction;
use hexdump::ReadEvent;
use hexdump::format::hex_digit_of;
use hexdump::format::print_line;
use hexdump::format::render_ascii;

fn dump_string(input: &str, width: usize, expected: &str) {
    let out = dump(input.as_bytes(), width);
    assert_eq!(String::from_utf8(out).unwrap(), expected);
}

#[test]
fn dump_empty_input() {
    dump_string("", 1, "");
}

#[test]
fn dump_one_byte() {
    dump_string("a", 1, "61   a\n");
}

#[test]
fn dump_one_byte_when_width_greater() {
    dump_string("a", 2, "61      a\n");
}

#[test]
fn dump_two_bytes_on_two_lines() {
    dump_string("ab", 1, "61   a\n62   b\n");
}

#[test]
fn dump_two_full_lines() {
    dump_string("abcd", 2, "61 62   ab\n63 64   cd\n");
}

#[test]
fn dump_short_final_chunk_with_nonprintable() {
    // Width 8, a final chunk of four bytes ending in a newline byte: the
    // hex field still shows 0A, the ASCII field shows `?`, and the padding
    // keeps the ASCII column at offset 26.
    let out = dump(b"ut.\n", 8);
    assert_eq!(String::from_utf8(out).unwrap(), "75 74 2E 0A               ut.?\n");
}

#[test]
fn dump_line_count_is_ceiling() {
    let out = dump(b"abcde", 2);
    let text = String::from_utf8(out).unwrap();
    assert_eq!(text.matches('\n').count(), 3);
    let out = dump(b"abcd", 2);
    let text = String::from_utf8(out).unwrap();
    assert_eq!(text.matches('\n').count(), 2);
}

#[test]
fn dump_hex_values_exact() {
    let out = dump(&[0x00, 0xFF, 0xA5], 3);
    assert_eq!(String::from_utf8(out).unwrap(), "00 FF A5   ???\n");
}

#[test]
fn dump_is_pure() {
    let first = dump(b"pure", 3);
    let second = dump(b"pure", 3);
    assert_eq!(first, second);
}

#[test]
fn print_line_appends_one_line() {
    let mut out = Vec::new();
    print_line(&mut out, b"a", 4);
    assert_eq!(String::from_utf8(out).unwrap(), "61            a\n");
}

#[test]
fn print_line_empty_chunk_is_blank_line() {
    let mut out = Vec::new();
    print_line(&mut out, b"", 1);
    assert_eq!(String::from_utf8(out).unwrap(), "     \n");
}

#[test]
fn print_line_ascii_column_offset() {
    // For a given width the ASCII field always begins at offset
    // 3 * width + 2, whether the chunk is full or short.
    for chunk in [&b"xy"[..], &b"x"[..]] {
        let mut out = Vec::new();
        print_line(&mut out, chunk, 2);
        let text = String::from_utf8(out).unwrap();
        assert_eq!(&text[8..8 + chunk.len()], std::str::from_utf8(chunk).unwrap());
    }
}

#[test]
fn print_line_keeps_earlier_output() {
    let mut out = b"61   a\n".to_vec();
    print_line(&mut out, b"b", 1);
    assert_eq!(String::from_utf8(out).unwrap(), "61   a\n62   b\n");
}

#[test]
fn printability_boundaries() {
    let out = dump(&[0x1F, 0x20, 0x7E, 0x7F], 4);
    assert_eq!(String::from_utf8(out).unwrap(), "1F 20 7E 7F   ? ~?\n");
}

#[test]
fn render_ascii_rule() {
    assert_eq!(render_ascii(b'a'), b'a');
    assert_eq!(render_ascii(b' '), b' ');
    assert_eq!(render_ascii(b'~'), b'~');
    assert_eq!(render_ascii(0x1F), b'?');
    assert_eq!(render_ascii(0x7F), b'?');
    assert_eq!(render_ascii(0xFF), b'?');
    assert_eq!(render_ascii(b'?'), b'?');
}

#[test]
fn hex_digits_are_uppercase() {
    assert_eq!(hex_digit_of(0), b'0');
    assert_eq!(hex_digit_of(9), b'9');
    assert_eq!(hex_digit_of(10), b'A');
    assert_eq!(hex_digit_of(15), b'F');
}

#[test]
fn read_step_eof_completes_chunk() {
    assert_eq!(read_step(3, 8, ReadEvent::Bytes(0)), ReadAction::Chunk(3));
    assert_eq!(read_step(0, 8, ReadEvent::Bytes(0)), ReadAction::Chunk(0));
}

#[test]
fn read_step_full_buffer_completes_chunk() {
    assert_eq!(read_step(6, 8, ReadEvent::Bytes(2)), ReadAction::Chunk(8));
}

#[test]
fn read_step_partial_read_keeps_filling() {
    assert_eq!(read_step(2, 8, ReadEvent::Bytes(3)), ReadAction::Fill(5));
}

#[test]
fn read_step_retries_after_interrupt() {
    assert_eq!(read_step(5, 8, ReadEvent::Interrupted), ReadAction::Fill(5));
}

#[test]
fn read_step_aborts_on_failure() {
    assert_eq!(read_step(5, 8, ReadEvent::Failed), ReadAction::Abort);
}
