//! Rendering of received records into the supervisor's output lines.
//!
//! Every record is printed immediately, prefixed with its child's name: a
//! plain `[name]` for whole lines, `[name...]` for force-split fragments,
//! `[name<EOF>]` for a non-empty residue at stream end — an empty residue
//! prints nothing — and `<name> Error: ...` for a decode failure. A single
//! trailing line feed of the record is trimmed and the writer appends its
//! own.

use vstd::prelude::*;
use vstd::utf8::encode_utf8;

use crate::line_model::Tag;
use crate::line_reader::DecodeError;
use crate::line_reader::Line;
use crate::line_reader::append_range;

verus! {

/// The bytes of `t` with a single trailing line feed, if any, removed.
pub open spec fn trim_nl(t: Seq<u8>) -> Seq<u8> {
    if t.len() > 0 && t[t.len() - 1] == 10u8 {
        t.take(t.len() - 1)
    } else {
        t
    }
}

/// The prefix that labels a record with its child's name.
pub open spec fn spec_line_prefix(tag: Tag, name: Seq<char>) -> Seq<u8> {
    match tag {
        Tag::Full => encode_utf8("["@) + encode_utf8(name) + encode_utf8("] "@),
        Tag::Partial => encode_utf8("["@) + encode_utf8(name) + encode_utf8("...] "@),
        Tag::Eof => encode_utf8("["@) + encode_utf8(name) + encode_utf8("<EOF>] "@),
    }
}

/// The diagnostic line printed when a child's stream failed to decode.
pub open spec fn spec_error_line(name: Seq<char>) -> Seq<u8> {
    encode_utf8("<"@) + encode_utf8(name) + encode_utf8(
        "> Error: stream did not contain valid UTF-8"@,
    ) + seq![10u8]
}

/// What the writer prints for one received record: nothing for an empty
/// end-of-stream residue, otherwise the labelled record text, trimmed of a
/// single trailing line feed, with a line feed appended.
pub open spec fn spec_format_line(name: Seq<char>, line: Result<Line, DecodeError>) -> Option<
    Seq<u8>,
> {
    match line {
        Result::Err(_) => Some(spec_error_line(name)),
        Result::Ok(l) => if l.tag() is Eof && l.bytes().len() == 0 {
            None
        } else {
            Some(spec_line_prefix(l.tag(), name) + trim_nl(l.bytes()) + seq![10u8])
        },
    }
}

/// Appends the UTF-8 bytes of `s` to `dst`.
fn push_str_bytes(dst: &mut Vec<u8>, s: &str)
    ensures
        final(dst)@ == old(dst)@ + encode_utf8(s@),
{
    let b = s.as_bytes();
    let n = b.len();
    append_range(dst, b, 0, n);
    proof {
        assert(b@.subrange(0, n as int) =~= b@);
    }
}

/// Renders one received record exactly as `spec_format_line` says.
pub fn format_line(name: &str, line: &Result<Line, DecodeError>) -> (r: Option<Vec<u8>>)
    ensures
        match spec_format_line(name@, *line) {
            Some(bs) => r matches Some(v) && v@ == bs,
            None => r is None,
        },
{
    match line {
        Result::Err(_) => {
            let mut v: Vec<u8> = Vec::new();
            push_str_bytes(&mut v, "<");
            push_str_bytes(&mut v, name);
            push_str_bytes(&mut v, "> Error: stream did not contain valid UTF-8");
            v.push(10u8);
            proof {
                assert(v@ =~= spec_error_line(name@));
            }
            Some(v)
        },
        Result::Ok(l) => {
            let text = l.as_line();
            let tb = text.as_bytes();
            proof {
                assert(tb@ == l.bytes());
            }
            let is_eof = match l {
                Line::EOF(_) => true,
                Line::FullLine(_) => false,
                Line::PartialLine(_) => false,
            };
            if is_eof && tb.len() == 0 {
                proof {
                    assert(l.tag() is Eof && l.bytes().len() == 0);
                }
                return None;
            }
            let mut v: Vec<u8> = Vec::new();
            push_str_bytes(&mut v, "[");
            push_str_bytes(&mut v, name);
            match l {
                Line::FullLine(_) => push_str_bytes(&mut v, "] "),
                Line::PartialLine(_) => push_str_bytes(&mut v, "...] "),
                Line::EOF(_) => push_str_bytes(&mut v, "<EOF>] "),
            }
            proof {
                assert(v@ == spec_line_prefix(l.tag(), name@));
            }
            let n = tb.len();
            let end = if n > 0 && tb[n - 1] == 10u8 {
                n - 1
            } else {
                n
            };
            append_range(&mut v, tb, 0, end);
            v.push(10u8);
            proof {
                assert(tb@.subrange(0, end as int) =~= trim_nl(l.bytes()));
                assert(v@ =~= spec_line_prefix(l.tag(), name@) + trim_nl(l.bytes()) + seq![10u8]);
            }
            Some(v)
        },
    }
}

} // verus!
