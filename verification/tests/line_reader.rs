use multip::line_reader::get_full_line;
use multip::line_reader::get_partial_line;
use multip::line_reader::SafeLineReader;

#[test]
fn can_read_multiple_lines() {
    let in_buf: &[u8] = b"a\nb\nc";

    let mut reader = SafeLineReader::new(in_buf.to_vec(), 2, 100);

    let s = reader.read_line().unwrap();

    assert_eq!(get_full_line(s), "a\n");
}

#[test]
fn can_read_multiple_lines_with_words() {
    let in_buf: &[u8] = b"first\nsecond\nthird\n";
    let mut reader = SafeLineReader::new(in_buf.to_vec(), 2, 100);

    let s = get_full_line(reader.read_line().unwrap());
    assert_eq!(s, "first\n");

    let s = get_full_line(reader.read_line().unwrap());
    assert_eq!(s, "second\n");

    let s = get_full_line(reader.read_line().unwrap());
    assert_eq!(s, "third\n");
}

#[test]
fn can_split_too_long_lines_large_buffer() {
    let in_buf: &[u8] = b"too long line\nsecond line\n";

    let mut reader = SafeLineReader::new(in_buf.to_vec(), 100, 7);

    let s = get_partial_line(reader.read_line().unwrap());
    assert_eq!(s, "too lon");

    let s = get_partial_line(reader.read_line().unwrap());
    assert_eq!(s, "g line\n");

    let s = get_partial_line(reader.read_line().unwrap());
    assert_eq!(s, "second ");
}

#[test]
fn can_split_too_long_lines_small_buffer() {
    let in_buf: &[u8] = b"too long line\nsecond line\n";

    let mut reader = SafeLineReader::new(in_buf.to_vec(), 3, 7);

    let s = get_partial_line(reader.read_line().unwrap());
    assert_eq!(s, "too lon");

    let s = get_partial_line(reader.read_line().unwrap());
    assert_eq!(s, "g line\n");

    let s = get_partial_line(reader.read_line().unwrap());
    assert_eq!(s, "second ");
}

#[test]
fn really_long_line() {
    let in_buf: &[u8] = b"too long line hubba bubba dubba\n";

    let mut reader = SafeLineReader::new(in_buf.to_vec(), 3, 5);

    let s = get_partial_line(reader.read_line().unwrap());
    assert_eq!(s, "too l");

    let s = get_partial_line(reader.read_line().unwrap());
    assert_eq!(s, "ong l");

    let s = get_partial_line(reader.read_line().unwrap());
    assert_eq!(s, "ine h");

    let s = get_partial_line(reader.read_line().unwrap());
    assert_eq!(s, "ubba ");

    let s = get_partial_line(reader.read_line().unwrap());
    assert_eq!(s, "bubba");

    let s = get_partial_line(reader.read_line().unwrap());
    assert_eq!(s, " dubb");

    let s = get_partial_line(reader.read_line().unwrap());
    assert_eq!(s, "a\n");
}

#[test]
fn empty_lines() {
    let in_buf: &[u8] = b"\n\n\n\n";
    let mut reader = SafeLineReader::new(in_buf.to_vec(), 2, 5);

    let s = get_full_line(reader.read_line().unwrap());
    assert_eq!(s, "\n");

    let s = get_full_line(reader.read_line().unwrap());
    assert_eq!(s, "\n");

    let s = get_full_line(reader.read_line().unwrap());
    assert_eq!(s, "\n");

    let s = get_full_line(reader.read_line().unwrap());
    assert_eq!(s, "\n");
}

#[test]
fn invalid_unicode() {
    let in_buf: &[u8] = &[32, 255, 6, 2, 3];
    let mut reader = SafeLineReader::new(in_buf.to_vec(), 2, 5);

    let err = match reader.read_line() {
        Err(err) => err.message().to_string(),
        _ => String::from("no error"),
    };

    assert_eq!(err, "stream did not contain valid UTF-8");
}

#[test]
fn test_eof() {
    let in_buf: &[u8] = b"12345678";
    let mut reader = SafeLineReader::new(in_buf.to_vec(), 2, 5);

    let line = reader.read_line().unwrap();
    assert_eq!(line.describe(), "PartialLine(12345)");

    let line = reader.read_line().unwrap();
    assert_eq!(line.describe(), "EOF(678)");
}

#[test]
fn long_line_with_large_buffer() {
    let in_buf: &[u8] = b"abcdefghikjlmnopqrstxyz\nabcdefghikjlmnopqrstxyz\n";
    let mut reader = SafeLineReader::new(in_buf.to_vec(), 1000, 5);

    let s = get_partial_line(reader.read_line().unwrap());
    assert_eq!(s, "abcde");

    let s = get_partial_line(reader.read_line().unwrap());
    assert_eq!(s, "fghik");

    let s = get_partial_line(reader.read_line().unwrap());
    assert_eq!(s, "jlmno");

    let s = get_partial_line(reader.read_line().unwrap());
    assert_eq!(s, "pqrst");

    let s = get_partial_line(reader.read_line().unwrap());
    assert_eq!(s, "xyz\n");

    let s = get_partial_line(reader.read_line().unwrap());
    assert_eq!(s, "abcde");
}

#[test]
fn long_line_in_the_middle() {
    let in_buf: &[u8] = b"foo\nlong stuff\nbar\n";
    let mut reader = SafeLineReader::new(in_buf.to_vec(), 1000, 5);

    let s = get_full_line(reader.read_line().unwrap());
    assert_eq!(s, "foo\n");

    let s = get_partial_line(reader.read_line().unwrap());
    assert_eq!(s, "long ");

    // The budget is five bytes, so the six-byte "stuff\n" cannot come out
    // whole: the newline starts a fragment of its own.
    let s = get_partial_line(reader.read_line().unwrap());
    assert_eq!(s, "stuff");

    let s = get_partial_line(reader.read_line().unwrap());
    assert_eq!(s, "\n");

    let s = get_full_line(reader.read_line().unwrap());
    assert_eq!(s, "bar\n");
}

#[test]
fn empty_input_is_just_eof() {
    let mut reader = SafeLineReader::new(Vec::new(), 2, 5);
    let line = reader.read_line().unwrap();
    assert_eq!(line.describe(), "EOF()");
    let line = reader.read_line().unwrap();
    assert_eq!(line.describe(), "EOF()");
}
