//! Bounded, UTF-8-checked splitting of a byte stream into line records.
//!
//! `LineScanner` holds the line in progress and consumes one available chunk
//! per call; `SafeLineReader` owns a whole input and replays it chunk by
//! chunk, emitting one record per `read_line` call. A record never exceeds
//! the configured byte budget, and every consumed byte ends up in exactly
//! one record, in order. Each appended fragment must be valid UTF-8 on its
//! own; a fragment that is not makes the call fail with a decode error and
//! the pending text is discarded.

use vstd::prelude::*;
use vstd::slice::slice_subrange;
use vstd::string::StringExecFns;
use vstd::utf8::encode_utf8;
use vstd::utf8::is_leading_byte_width_1;
use vstd::utf8::partial_valid_utf8;
use vstd::utf8::partial_valid_utf8_extend_ascii_block;
use vstd::utf8::valid_utf8;
use vstd::utf8::valid_utf8_concat;

use crate::line_model::RecordSpec;
use crate::line_model::Tag;
use crate::line_model::find_nl;
use crate::line_model::lemma_find_nl_is;
use crate::line_model::lemma_find_nl_none;
use crate::line_model::lemma_find_nl_spec;
use crate::line_model::lemma_spec_next;
use crate::line_model::spec_next;
use crate::line_model::spec_records;

verus! {

/// The error returned when consumed bytes do not extend the pending record
/// with valid UTF-8.
#[derive(Debug)]
pub struct DecodeError {}

impl DecodeError {
    /// A human-readable description of the failure.
    pub fn message(&self) -> (r: &'static str)
        ensures
            r@ == "stream did not contain valid UTF-8"@,
    {
        "stream did not contain valid UTF-8"
    }
}

/// One emitted record: a whole line, a fragment of a force-split line, or
/// the residue left when the stream ended.
pub enum Line {
    /// A newline-terminated line that was never force-split.
    FullLine(String),
    /// A fragment of a line that exceeded the byte budget; the final,
    /// newline-terminated piece of such a line is also tagged this way.
    PartialLine(String),
    /// The bytes, possibly none, pending when the stream ended.
    EOF(String),
}

impl Line {
    /// The characters of the record.
    pub open spec fn text(&self) -> Seq<char> {
        match self {
            Line::FullLine(s) => s@,
            Line::PartialLine(s) => s@,
            Line::EOF(s) => s@,
        }
    }

    /// The UTF-8 bytes of the record.
    pub open spec fn bytes(&self) -> Seq<u8> {
        encode_utf8(self.text())
    }

    /// The model tag of the record.
    pub open spec fn tag(&self) -> Tag {
        match self {
            Line::FullLine(_) => Tag::Full,
            Line::PartialLine(_) => Tag::Partial,
            Line::EOF(_) => Tag::Eof,
        }
    }

    /// The text of the record, whatever its tag.
    pub fn as_line<'a>(&'a self) -> (r: &'a str)
        ensures
            r@ == self.text(),
    {
        match self {
            Line::FullLine(s) => s.as_str(),
            Line::PartialLine(s) => s.as_str(),
            Line::EOF(s) => s.as_str(),
        }
    }

    /// The name of the record's own variant in spec terms.
    pub open spec fn label(&self) -> Seq<char> {
        match self {
            Line::FullLine(_) => "FullLine("@,
            Line::PartialLine(_) => "PartialLine("@,
            Line::EOF(_) => "EOF("@,
        }
    }

    /// Renders the record as its variant name around its text.
    pub fn describe(&self) -> (r: String)
        ensures
            r@ == self.label() + self.text() + ")"@,
    {
        let mut s = match self {
            Line::FullLine(_) => String::from_str("FullLine("),
            Line::PartialLine(_) => String::from_str("PartialLine("),
            Line::EOF(_) => String::from_str("EOF("),
        };
        s.append(self.as_line());
        s.append(")");
        s
    }
}

/// The text of a `FullLine` record.
pub fn get_full_line(s: Line) -> (r: String)
    requires
        s.tag() is Full,
    ensures
        r@ == s.text(),
{
    match s {
        Line::FullLine(t) => t,
        _ => vstd::pervasive::unreached(),
    }
}

/// The text of a `PartialLine` record.
pub fn get_partial_line(s: Line) -> (r: String)
    requires
        s.tag() is Partial,
    ensures
        r@ == s.text(),
{
    match s {
        Line::PartialLine(t) => t,
        _ => vstd::pervasive::unreached(),
    }
}

/// A non-negative `isize` unchanged; a negative one becomes 0.
pub fn to_usize(i: isize) -> (r: usize)
    ensures
        r == if i >= 0 { i as int } else { 0int },
{
    if i >= 0 {
        i as usize
    } else {
        0
    }
}

/// A `usize` within `isize` range unchanged; a larger one becomes 0.
pub fn to_isize(i: usize) -> (r: isize)
    ensures
        r == if i <= isize::MAX { i as int } else { 0int },
{
    if i <= isize::MAX as usize {
        i as isize
    } else {
        0
    }
}

/// Relies on `memchr::memchr`: the index of the first occurrence of
/// `needle` in `haystack`, documented to equal
/// `haystack.iter().position(|&b| b == needle)`.
pub assume_specification [ memchr::memchr ] (needle: u8, haystack: &[u8]) -> (r: Option<usize>)
    ensures
        match r {
            Some(i) => i < haystack@.len() && haystack@[i as int] == needle && (forall|k: int|
                0 <= k < i ==> haystack@[k] != needle),
            None => forall|k: int| 0 <= k < haystack@.len() ==> haystack@[k] != needle,
        },
;

/// Relies on `core::str::from_utf8`, which returns `Ok` exactly when the
/// bytes are valid UTF-8; `valid_utf8` is vstd's statement of that notion,
/// used by vstd itself as the precondition of `str::from_utf8_unchecked`.
#[verifier::external_body]
fn utf8_ok(bytes: &[u8]) -> (r: bool)
    ensures
        r == valid_utf8(bytes@),
{
    core::str::from_utf8(bytes).is_ok()
}

/// Relies on `alloc::string::String::from_utf8`: on valid UTF-8 input it
/// returns the string whose UTF-8 encoding is exactly those bytes.
#[verifier::external_body]
fn string_from_utf8(bytes: Vec<u8>) -> (r: String)
    requires
        valid_utf8(bytes@),
    ensures
        encode_utf8(r@) == bytes@,
{
    match String::from_utf8(bytes) {
        Ok(s) => s,
        Err(_) => String::new(),
    }
}

/// All bytes below 0x80 form a valid UTF-8 sequence.
proof fn lemma_ascii_valid(s: Seq<u8>)
    requires
        forall|k: int| 0 <= k < s.len() ==> s[k] < 0x80,
    ensures
        valid_utf8(s),
{
    assert(s.subrange(0, 0) =~= Seq::<u8>::empty());
    assert(partial_valid_utf8(s, 0));
    assert(forall|i: int| 0 <= i < s.len() ==> is_leading_byte_width_1(s[i]));
    partial_valid_utf8_extend_ascii_block(s, 0, s.len() as int);
    assert(s.subrange(0, s.len() as int) =~= s);
}

/// Appends `src[start..end]` to `dst`.
pub(crate) fn append_range(dst: &mut Vec<u8>, src: &[u8], start: usize, end: usize)
    requires
        start <= end <= src@.len(),
    ensures
        final(dst)@ == old(dst)@ + src@.subrange(start as int, end as int),
{
    proof {
        assert(old(dst)@ + src@.subrange(start as int, start as int) =~= old(dst)@);
    }
    let mut k = start;
    while k < end
        invariant
            start <= k <= end <= src@.len(),
            dst@ == old(dst)@ + src@.subrange(start as int, k as int),
        decreases end - k,
    {
        let b = src[k];
        dst.push(b);
        proof {
            assert((old(dst)@ + src@.subrange(start as int, k as int)).push(b) =~= old(dst)@
                + src@.subrange(start as int, k + 1));
        }
        k = k + 1;
    }
}

/// What one `LineScanner::step` call did with the chunk it was handed.
pub enum Step {
    /// A record is ready; `used` bytes of the chunk were consumed.
    Emit { used: usize, line: Line },
    /// The chunk was absorbed into the pending line; pull more input.
    More { used: usize },
    /// The consumed bytes did not extend the pending text with valid UTF-8.
    Fail { used: usize, error: DecodeError },
}

/// The incremental state of bounded line splitting: the pending line, the
/// byte budget, and whether the pending logical line has already had a
/// forced fragment emitted.
pub struct LineScanner {
    /// The bytes of the line in progress; never holds a line feed and never
    /// exceeds the budget.
    pub buf: Vec<u8>,
    /// The byte budget for a single record; strictly positive.
    pub max_line_size: usize,
    /// Whether the line in progress has already had a fragment emitted.
    pub sent_partial: bool,
}

impl LineScanner {
    /// Well-formedness: a positive budget and a pending line that fits it,
    /// is valid UTF-8, and holds no line feed.
    pub open spec fn wf(&self) -> bool {
        &&& 1 <= self.max_line_size
        &&& self.buf@.len() <= self.max_line_size
        &&& valid_utf8(self.buf@)
        &&& forall|k: int| 0 <= k < self.buf@.len() ==> self.buf@[k] != 10u8
    }

    /// A scanner with an empty pending line.
    pub fn new(max_line_size: usize) -> (r: LineScanner)
        requires
            1 <= max_line_size,
        ensures
            r.wf(),
            r.buf@ == Seq::<u8>::empty(),
            r.max_line_size == max_line_size,
            r.sent_partial == false,
    {
        LineScanner { buf: Vec::new(), max_line_size, sent_partial: false }
    }

    /// Consumes a prefix of `avail`, the bytes currently available from the
    /// stream, and says what to do next. An empty `avail` means the stream
    /// has ended and yields the residual record. The contract below is the
    /// whole behaviour: which prefix is consumed, what is emitted, and how
    /// the pending state changes, as a function of the pending line, the
    /// budget, the split flag, and the chunk.
    pub fn step(&mut self, avail: &[u8]) -> (r: Step)
        requires
            old(self).wf(),
        ensures
            final(self).wf(),
            final(self).max_line_size == old(self).max_line_size,
            ({
                let b = old(self).buf@;
                let m = old(self).max_line_size as int;
                let p = old(self).sent_partial;
                let a = avail@;
                if a.len() == 0 {
                    &&& r matches Step::Emit { used, line }
                    &&& used == 0
                    &&& line.tag() == Tag::Eof
                    &&& line.bytes() == b
                    &&& final(self).buf@ == Seq::<u8>::empty()
                    &&& final(self).sent_partial == p
                } else {
                    match find_nl(a) {
                        Some(i) => if b.len() + i + 1 <= m {
                            if valid_utf8(a.take(i + 1)) {
                                &&& r matches Step::Emit { used, line }
                                &&& used == i + 1
                                &&& line.bytes() == b + a.take(i + 1)
                                &&& line.tag() == (if p {
                                    Tag::Partial
                                } else {
                                    Tag::Full
                                })
                                &&& final(self).buf@ == Seq::<u8>::empty()
                                &&& final(self).sent_partial == false
                            } else {
                                &&& r matches Step::Fail { used, error }
                                &&& used == i + 1
                                &&& final(self).buf@ == Seq::<u8>::empty()
                                &&& final(self).sent_partial == p
                            }
                        } else {
                            if valid_utf8(a.take(m - b.len())) {
                                &&& r matches Step::Emit { used, line }
                                &&& used == m - b.len()
                                &&& line.bytes() == b + a.take(m - b.len())
                                &&& line.tag() == Tag::Partial
                                &&& final(self).buf@ == Seq::<u8>::empty()
                                &&& final(self).sent_partial == true
                            } else {
                                &&& r matches Step::Fail { used, error }
                                &&& used == i + 1
                                &&& final(self).buf@ == Seq::<u8>::empty()
                                &&& final(self).sent_partial == p
                            }
                        },
                        None => if b.len() + a.len() <= m {
                            if valid_utf8(a) {
                                &&& r matches Step::More { used }
                                &&& used == a.len()
                                &&& final(self).buf@ == b + a
                                &&& final(self).sent_partial == p
                            } else {
                                &&& r matches Step::Fail { used, error }
                                &&& used == a.len()
                                &&& final(self).buf@ == Seq::<u8>::empty()
                                &&& final(self).sent_partial == p
                            }
                        } else {
                            if valid_utf8(a.take(m - b.len())) {
                                &&& r matches Step::Emit { used, line }
                                &&& used == m - b.len()
                                &&& line.bytes() == b + a.take(m - b.len())
                                &&& line.tag() == Tag::Partial
                                &&& final(self).buf@ == Seq::<u8>::empty()
                                &&& final(self).sent_partial == true
                            } else {
                                &&& r matches Step::Fail { used, error }
                                &&& used == m - b.len()
                                &&& final(self).buf@ == Seq::<u8>::empty()
                                &&& final(self).sent_partial == p
                            }
                        },
                    }
                }
            }),
    {
        let ghost b0 = self.buf@;
        if avail.len() == 0 {
            let text = self.buf.split_off(0);
            proof {
                assert(text@ =~= b0);
                assert(self.buf@ =~= Seq::<u8>::empty());
            }
            let s = string_from_utf8(text);
            return Step::Emit { used: 0, line: Line::EOF(s) };
        }
        let space = self.max_line_size - self.buf.len();
        match memchr::memchr(10u8, avail) {
            Some(i) => {
                proof {
                    lemma_find_nl_is(avail@, i as int);
                }
                if i < space {
                    let frag = slice_subrange(avail, 0, i + 1);
                    proof {
                        assert(frag@ =~= avail@.take(i + 1));
                    }
                    if !utf8_ok(frag) {
                        self.buf.clear();
                        return Step::Fail { used: i + 1, error: DecodeError {} };
                    }
                    append_range(&mut self.buf, avail, 0, i + 1);
                    proof {
                        valid_utf8_concat(b0, frag@);
                        assert(self.buf@ == b0 + avail@.take(i + 1));
                    }
                    let text = self.buf.split_off(0);
                    proof {
                        assert(text@ =~= b0 + avail@.take(i + 1));
                        assert(self.buf@ =~= Seq::<u8>::empty());
                    }
                    let s = string_from_utf8(text);
                    let was = self.sent_partial;
                    self.sent_partial = false;
                    if was {
                        return Step::Emit { used: i + 1, line: Line::PartialLine(s) };
                    } else {
                        return Step::Emit { used: i + 1, line: Line::FullLine(s) };
                    }
                } else {
                    let frag = slice_subrange(avail, 0, space);
                    proof {
                        assert(frag@ =~= avail@.take(space as int));
                    }
                    if !utf8_ok(frag) {
                        self.buf.clear();
                        return Step::Fail { used: i + 1, error: DecodeError {} };
                    }
                    append_range(&mut self.buf, avail, 0, space);
                    proof {
                        valid_utf8_concat(b0, frag@);
                        assert(self.buf@ == b0 + avail@.take(space as int));
                    }
                    let text = self.buf.split_off(0);
                    proof {
                        assert(text@ =~= b0 + avail@.take(space as int));
                        assert(self.buf@ =~= Seq::<u8>::empty());
                    }
                    let s = string_from_utf8(text);
                    self.sent_partial = true;
                    return Step::Emit { used: space, line: Line::PartialLine(s) };
                }
            },
            None => {
                proof {
                    lemma_find_nl_none(avail@);
                }
                if avail.len() <= space {
                    if !utf8_ok(avail) {
                        self.buf.clear();
                        return Step::Fail { used: avail.len(), error: DecodeError {} };
                    }
                    let n = avail.len();
                    append_range(&mut self.buf, avail, 0, n);
                    proof {
                        assert(avail@.subrange(0, n as int) =~= avail@);
                        valid_utf8_concat(b0, avail@);
                        assert(self.buf@ == b0 + avail@);
                        assert forall|k: int| 0 <= k < self.buf@.len() implies self.buf@[k]
                            != 10u8 by {
                            if k < b0.len() {
                                assert(self.buf@[k] == b0[k]);
                            } else {
                                assert(self.buf@[k] == avail@[k - b0.len()]);
                            }
                        }
                    }
                    return Step::More { used: n };
                } else {
                    let frag = slice_subrange(avail, 0, space);
                    proof {
                        assert(frag@ =~= avail@.take(space as int));
                    }
                    if !utf8_ok(frag) {
                        self.buf.clear();
                        return Step::Fail { used: space, error: DecodeError {} };
                    }
                    append_range(&mut self.buf, avail, 0, space);
                    proof {
                        valid_utf8_concat(b0, frag@);
                        assert(self.buf@ == b0 + avail@.take(space as int));
                    }
                    let text = self.buf.split_off(0);
                    proof {
                        assert(text@ =~= b0 + avail@.take(space as int));
                        assert(self.buf@ =~= Seq::<u8>::empty());
                    }
                    let s = string_from_utf8(text);
                    self.sent_partial = true;
                    return Step::Emit { used: space, line: Line::PartialLine(s) };
                }
            },
        }
    }
}

/// A bounded line reader over an owned byte stream, replayed in chunks of a
/// fixed size so that arbitrary chunk boundaries are exercised.
pub struct SafeLineReader {
    /// The whole byte stream.
    pub input: Vec<u8>,
    /// How many of the input bytes have been consumed.
    pub pos: usize,
    /// At most this many bytes are made available per internal pull.
    pub chunk_size: usize,
    /// The splitting state shared with the incremental scanner.
    pub scanner: LineScanner,
}

impl SafeLineReader {
    /// Well-formedness: a sound scanner with nothing pending between calls,
    /// a positive chunk size, and a position within the input.
    pub open spec fn wf(&self) -> bool {
        &&& self.scanner.wf()
        &&& self.scanner.buf@.len() == 0
        &&& 1 <= self.chunk_size
        &&& self.pos <= self.input@.len()
    }

    /// A reader at the start of `input`.
    pub fn new(input: Vec<u8>, chunk_size: usize, max_line_size: usize) -> (r: SafeLineReader)
        requires
            1 <= chunk_size,
            1 <= max_line_size,
        ensures
            r.wf(),
            r.input@ == input@,
            r.pos == 0,
            r.chunk_size == chunk_size,
            r.scanner.max_line_size == max_line_size,
            r.scanner.sent_partial == false,
    {
        SafeLineReader { input, pos: 0, chunk_size, scanner: LineScanner::new(max_line_size) }
    }

    /// Emits the next record of the stream. On success the record is
    /// exactly the one `spec_next` owes at the current position: its bytes
    /// are the consumed range of the input, its tag reflects the line
    /// structure, and it never exceeds the budget. A decode failure leaves
    /// the split flag alone, consumes a bounded prefix, and happens only
    /// when some range of the remaining input is not valid UTF-8; on an
    /// all-ASCII remainder the call always succeeds.
    #[verifier::rlimit(40)]
    pub fn read_line(&mut self) -> (r: Result<Line, DecodeError>)
        requires
            old(self).wf(),
        ensures
            final(self).wf(),
            final(self).input == old(self).input,
            final(self).chunk_size == old(self).chunk_size,
            final(self).scanner.max_line_size == old(self).scanner.max_line_size,
            ({
                let nx = spec_next(
                    old(self).input@,
                    old(self).pos as int,
                    old(self).scanner.max_line_size as int,
                    old(self).scanner.sent_partial,
                );
                match r {
                    Ok(line) => {
                        &&& line.bytes() == nx.text
                        &&& line.tag() == nx.tag
                        &&& final(self).pos == nx.pos
                        &&& final(self).scanner.sent_partial == nx.sent
                        &&& line.bytes() == old(self).input@.subrange(
                            old(self).pos as int,
                            final(self).pos as int,
                        )
                        &&& line.bytes().len() <= old(self).scanner.max_line_size
                    },
                    Err(_) => {
                        &&& old(self).pos <= final(self).pos <= old(self).input@.len()
                        &&& final(self).scanner.sent_partial == old(self).scanner.sent_partial
                        &&& exists|x: int, y: int|
                            old(self).pos <= x <= y <= old(self).input@.len() && !valid_utf8(
                                old(self).input@.subrange(x, y),
                            )
                    },
                }
            }),
            (forall|k: int|
                old(self).pos <= k < old(self).input@.len() ==> old(self).input@[k] < 0x80)
                ==> r is Ok,
    {
        let ghost input0 = self.input@;
        let ghost pos0 = self.pos as int;
        let ghost m = self.scanner.max_line_size as int;
        let ghost sent0 = self.scanner.sent_partial;
        loop
            invariant
                self.scanner.wf(),
                self.input == old(self).input,
                self.chunk_size == old(self).chunk_size,
                self.scanner.max_line_size == old(self).scanner.max_line_size,
                self.scanner.sent_partial == sent0,
                input0 == self.input@,
                pos0 == old(self).pos as int,
                m == self.scanner.max_line_size as int,
                sent0 == old(self).scanner.sent_partial,
                1 <= self.chunk_size,
                pos0 <= self.pos as int <= input0.len(),
                self.scanner.buf@ == input0.subrange(pos0, self.pos as int),
            decreases input0.len() - self.pos,
        {
            let remaining = self.input.len() - self.pos;
            let take_n = if self.chunk_size < remaining {
                self.chunk_size
            } else {
                remaining
            };
            let end = self.pos + take_n;
            let avail = slice_subrange(self.input.as_slice(), self.pos, end);
            let ghost a = avail@;
            let ghost b = self.scanner.buf@;
            let ghost cur = self.pos as int;
            let ghost rest = input0.skip(pos0);
            let ghost bl = b.len() as int;
            proof {
                assert(forall|k: int| 0 <= k < rest.len() ==> rest[k] == input0[pos0 + k]);
                assert(forall|k: int| 0 <= k < bl ==> b[k] == input0[pos0 + k]);
                assert(forall|k: int| 0 <= k < a.len() ==> a[k] == input0[cur + k]);
                assert(cur == pos0 + bl);
                assert(rest.len() == input0.len() - pos0);
            }
            let step = self.scanner.step(avail);
            match step {
                Step::More { used } => {
                    proof {
                        assert(a.len() > 0);
                        assert(find_nl(a) is None);
                        lemma_find_nl_spec(a);
                        assert(self.scanner.buf@ =~= input0.subrange(pos0, cur + a.len()));
                    }
                    self.pos = self.pos + used;
                },
                Step::Emit { used, line } => {
                    proof {
                        lemma_find_nl_spec(a);
                        lemma_spec_next(input0, pos0, m, sent0);
                    }
                    self.pos = self.pos + used;
                    proof {
                        if a.len() == 0 {
                            assert(take_n == 0);
                            assert(remaining == 0);
                            assert(cur == input0.len());
                            assert(b =~= rest);
                            lemma_find_nl_none(rest);
                            assert(spec_next(input0, pos0, m, sent0) == RecordSpec {
                                tag: Tag::Eof,
                                text: rest,
                                pos: input0.len() as int,
                                sent: sent0,
                            });
                        } else {
                            match find_nl(a) {
                                Some(i) => {
                                    lemma_find_nl_spec(a);
                                    assert(rest[bl + i] == 10u8);
                                    assert forall|k: int| 0 <= k < bl + i implies rest[k]
                                        != 10u8 by {
                                        if k < bl {
                                            assert(rest[k] == b[k]);
                                        } else {
                                            assert(rest[k] == a[k - bl]);
                                        }
                                    }
                                    lemma_find_nl_is(rest, bl + i);
                                    if bl + i + 1 <= m {
                                        assert(rest.take(bl + i + 1) =~= b + a.take(i + 1));
                                    } else {
                                        assert(rest.take(m) =~= b + a.take(m - bl));
                                    }
                                },
                                None => {
                                    lemma_find_nl_spec(a);
                                    assert(bl + a.len() > m);
                                    lemma_find_nl_spec(rest);
                                    match find_nl(rest) {
                                        Some(j) => {
                                            assert(j >= bl + a.len()) by {
                                                if j < bl {
                                                    assert(rest[j] == b[j]);
                                                } else if j < bl + a.len() {
                                                    assert(rest[j] == a[j - bl]);
                                                }
                                            }
                                            assert(rest.take(m) =~= b + a.take(m - bl));
                                        },
                                        None => {
                                            assert(rest.len() > m);
                                            assert(rest.take(m) =~= b + a.take(m - bl));
                                        },
                                    }
                                },
                            }
                        }
                    }
                    return Ok(line);
                },
                Step::Fail { used, error } => {
                    proof {
                        lemma_find_nl_spec(a);
                    }
                    self.pos = self.pos + used;
                    proof {
                        let frag = if a.len() == 0 {
                            Seq::<u8>::empty()
                        } else {
                            match find_nl(a) {
                                Some(i) => if bl + i + 1 <= m {
                                    a.take(i + 1)
                                } else {
                                    a.take(m - bl)
                                },
                                None => if bl + a.len() <= m {
                                    a
                                } else {
                                    a.take(m - bl)
                                },
                            }
                        };
                        assert(!valid_utf8(frag));
                        assert(frag =~= input0.subrange(cur, cur + frag.len()));
                        assert(pos0 <= cur <= cur + frag.len() <= input0.len());
                        assert(!valid_utf8(input0.subrange(cur, cur + frag.len())));
                        if forall|k: int| pos0 <= k < input0.len() ==> input0[k] < 0x80 {
                            assert forall|k: int| 0 <= k < frag.len() implies frag[k] < 0x80 by {
                                assert(frag[k] == input0[cur + k]);
                            }
                            lemma_ascii_valid(frag);
                            assert(false);
                        }
                    }
                    return Err(error);
                },
            }
        }
    }
}

/// Law: the records a reader emits are a function of the input bytes, the
/// byte budget, the position, and the split flag alone. Two readers that
/// agree on those but pull their input with different chunk sizes owe the
/// same records; `read_line`'s contract pins each emitted record to
/// `spec_next`, which never mentions the chunk size.
pub proof fn lemma_chunking_irrelevant(r1: SafeLineReader, r2: SafeLineReader)
    requires
        r1.input@ == r2.input@,
        r1.scanner.max_line_size == r2.scanner.max_line_size,
        r1.pos == r2.pos,
        r1.scanner.sent_partial == r2.scanner.sent_partial,
    ensures
        spec_records(
            r1.input@,
            r1.pos as int,
            r1.scanner.max_line_size as int,
            r1.scanner.sent_partial,
        ) == spec_records(
            r2.input@,
            r2.pos as int,
            r2.scanner.max_line_size as int,
            r2.scanner.sent_partial,
        ),
{
}

} // verus!
