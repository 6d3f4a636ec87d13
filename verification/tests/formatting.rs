use multip::command::command_with_name;
use multip::line_reader::get_full_line;
use multip::line_reader::DecodeError;
use multip::line_reader::Line;
use multip::line_reader::LineScanner;
use multip::line_reader::SafeLineReader;
use multip::line_reader::Step;
use multip::line_reader::to_isize;
use multip::line_reader::to_usize;
use multip::output::format_line;

fn rendered(name: &str, line: Result<Line, DecodeError>) -> Option<String> {
    format_line(name, &line).map(|v| String::from_utf8(v).unwrap())
}

#[test]
fn formats_full_lines() {
    let line = Ok(Line::FullLine("hello\n".to_string()));
    assert_eq!(rendered("foo", line).unwrap(), "[foo] hello\n");
}

#[test]
fn formats_split_fragments() {
    let line = Ok(Line::PartialLine("12345".to_string()));
    assert_eq!(rendered("foo", line).unwrap(), "[foo...] 12345\n");
}

#[test]
fn formats_residual_fragments() {
    let line = Ok(Line::EOF("678".to_string()));
    assert_eq!(rendered("foo", line).unwrap(), "[foo<EOF>] 678\n");
}

#[test]
fn empty_residue_prints_nothing() {
    let line = Ok(Line::EOF(String::new()));
    assert!(rendered("foo", line).is_none());
}

#[test]
fn formats_decode_failures() {
    let line = Err(DecodeError {});
    assert_eq!(
        rendered("foo", line).unwrap(),
        "<foo> Error: stream did not contain valid UTF-8\n"
    );
}

#[test]
fn splits_name_and_command() {
    let s = "foo: sh -c 'echo hello'".to_string();
    let (name, cmd) = command_with_name(&s).unwrap();
    assert_eq!(name, "foo");
    assert_eq!(cmd, "sh -c 'echo hello'");
}

#[test]
fn trims_command_whitespace() {
    let s = "web:\t  npm start \n".to_string();
    let (name, cmd) = command_with_name(&s).unwrap();
    assert_eq!(name, "web");
    assert_eq!(cmd, "npm start");
}

#[test]
fn keeps_later_colons_in_the_command() {
    let s = "db: postgres://localhost:5432".to_string();
    let (name, cmd) = command_with_name(&s).unwrap();
    assert_eq!(name, "db");
    assert_eq!(cmd, "postgres://localhost:5432");
}

#[test]
fn rejects_missing_colon() {
    let s = "no colon here".to_string();
    assert!(command_with_name(&s).is_none());
}

#[test]
fn empty_command_is_allowed() {
    let s = "x:".to_string();
    let (name, cmd) = command_with_name(&s).unwrap();
    assert_eq!(name, "x");
    assert_eq!(cmd, "");
}

#[test]
fn to_usize_clamps_negatives() {
    assert_eq!(to_usize(5), 5);
    assert_eq!(to_usize(0), 0);
    assert_eq!(to_usize(-1), 0);
}

#[test]
fn to_isize_clamps_large_values() {
    assert_eq!(to_isize(5), 5);
    assert_eq!(to_isize(usize::MAX), 0);
}

#[test]
fn as_line_returns_text_of_any_variant() {
    assert_eq!(Line::FullLine("a\n".to_string()).as_line(), "a\n");
    assert_eq!(Line::PartialLine("b".to_string()).as_line(), "b");
    assert_eq!(Line::EOF("c".to_string()).as_line(), "c");
}

#[test]
fn records_reconstruct_the_input() {
    let input: &[u8] = b"alpha\nbeta gamma delta\n\nepsilon";
    let mut reader = SafeLineReader::new(input.to_vec(), 3, 7);
    let mut all = String::new();
    loop {
        let line = reader.read_line().unwrap();
        assert!(line.as_line().len() <= 7);
        let eof = matches!(line, Line::EOF(_));
        all.push_str(line.as_line());
        if eof {
            break;
        }
    }
    assert_eq!(all.as_bytes(), input);
}

fn collect_records(input: &[u8], chunk: usize) -> Vec<String> {
    let mut reader = SafeLineReader::new(input.to_vec(), chunk, 6);
    let mut out = Vec::new();
    loop {
        let line = reader.read_line().unwrap();
        let eof = matches!(line, Line::EOF(_));
        out.push(line.describe());
        if eof {
            break;
        }
    }
    out
}

#[test]
fn chunk_size_never_changes_records() {
    let input: &[u8] = b"one\ntwo three four\nfive\n";
    let reference = collect_records(input, 1);
    for chunk in [2usize, 3, 5, 7, 100] {
        assert_eq!(collect_records(input, chunk), reference);
    }
}

#[test]
fn scanner_streams_incrementally() {
    let data: &[u8] = b"hi\nthere\n";
    let mut scanner = LineScanner::new(100);
    let mut out: Vec<String> = Vec::new();
    let mut pos = 0usize;
    let mut done = false;
    while !done {
        let end = core::cmp::min(pos + 4, data.len());
        match scanner.step(&data[pos..end]) {
            Step::Emit { used, line } => {
                pos += used;
                done = matches!(line, Line::EOF(_));
                out.push(line.describe());
            }
            Step::More { used } => {
                pos += used;
            }
            Step::Fail { .. } => panic!("unexpected decode failure"),
        }
    }
    assert_eq!(out, vec!["FullLine(hi\n)", "FullLine(there\n)", "EOF()"]);
}

#[test]
fn multibyte_text_survives_whole_chunks() {
    let mut reader = SafeLineReader::new("h\u{e9}llo\n".as_bytes().to_vec(), 100, 50);
    assert_eq!(get_full_line(reader.read_line().unwrap()), "h\u{e9}llo\n");
}

#[test]
fn split_multibyte_sequence_is_a_decode_failure() {
    let mut reader = SafeLineReader::new("h\u{e9}llo\n".as_bytes().to_vec(), 1, 50);
    assert!(reader.read_line().is_err());
}
