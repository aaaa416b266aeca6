use raytracer::ppm::decimal_bytes;
use raytracer::writer::MaxWidthWriter;

#[test]
fn decimal_digits() {
    assert_eq!(decimal_bytes(0), b"0".to_vec());
    assert_eq!(decimal_bytes(7), b"7".to_vec());
    assert_eq!(decimal_bytes(128), b"128".to_vec());
    assert_eq!(decimal_bytes(4294967295), b"4294967295".to_vec());
}

#[test]
fn writer_hands_on_complete_lines() {
    let mut w = MaxWidthWriter::new(10);
    let mut out = vec![];
    assert_eq!(w.write(b"ab cd", &mut out), 5);
    assert!(out.is_empty());
    w.write(b"\nef", &mut out);
    assert_eq!(out, b"ab cd\n".to_vec());
    w.flush(&mut out);
    assert_eq!(out, b"ab cd\nef".to_vec());
}

#[test]
fn writer_breaks_at_last_space_within_limit() {
    let mut w = MaxWidthWriter::new(5);
    let mut out = vec![];
    w.write(b"aa bb cc dd", &mut out);
    assert_eq!(out, b"aa bb\n".to_vec());
    w.flush(&mut out);
    assert_eq!(out, b"aa bb\ncc dd".to_vec());
}

#[test]
fn writer_breaks_after_limit_when_no_earlier_space() {
    let mut w = MaxWidthWriter::new(3);
    let mut out = vec![];
    w.write(b"abcde fg", &mut out);
    assert_eq!(out, b"abcde\n".to_vec());
    w.flush(&mut out);
    assert_eq!(out, b"abcde\nfg".to_vec());
}

#[test]
fn flush_line_short_buffer_does_nothing() {
    let mut w = MaxWidthWriter::new(10);
    let mut out = vec![];
    w.write(b"a b", &mut out);
    w.flush_line(&mut out);
    assert!(out.is_empty());
    w.flush(&mut out);
    assert_eq!(out, b"a b".to_vec());
}

#[test]
fn newline_inside_a_piece_is_not_split() {
    let mut w = MaxWidthWriter::new(4);
    let mut out = vec![];
    w.write(b"abc", &mut out);
    w.write(b"de fg\nh", &mut out);
    assert_eq!(out, b"abcde fg\n".to_vec());
    w.flush(&mut out);
    assert_eq!(out, b"abcde fg\nh".to_vec());
}
