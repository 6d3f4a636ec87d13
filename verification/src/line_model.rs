//! The mathematical model of the bounded line reader.
//!
//! A reader walks a byte stream and repeatedly emits one record: the next
//! newline-terminated line if it fits in the byte budget, a forced fragment
//! of exactly `max` bytes if it does not, or the residual bytes once the
//! stream is exhausted. `spec_next` says which record is owed at a given
//! position, and `spec_records` chains those records to the end of the
//! stream. Both are functions of the input bytes, the position, the budget
//! and the split flag alone; how the stream is chunked never appears here.

use vstd::prelude::*;

verus! {

/// Index of the first line-feed byte (10) in `s`, if any.
pub open spec fn find_nl(s: Seq<u8>) -> Option<int>
    decreases s.len(),
{
    if s.len() == 0 {
        None
    } else if s[0] == 10u8 {
        Some(0)
    } else {
        match find_nl(s.skip(1)) {
            Some(j) => Some(j + 1),
            None => None,
        }
    }
}

/// `find_nl` returns the index of the first line feed: the byte there is a
/// line feed and no earlier byte is; `None` means the sequence has none.
pub proof fn lemma_find_nl_spec(s: Seq<u8>)
    ensures
        match find_nl(s) {
            Some(j) => 0 <= j < s.len() && s[j] == 10u8 && (forall|k: int|
                0 <= k < j ==> s[k] != 10u8),
            None => forall|k: int| 0 <= k < s.len() ==> s[k] != 10u8,
        },
    decreases s.len(),
{
    if s.len() == 0 {
    } else if s[0] == 10u8 {
    } else {
        lemma_find_nl_spec(s.skip(1));
        let t = s.skip(1);
        match find_nl(t) {
            Some(j) => {
                assert(t[j] == s[j + 1]);
                assert forall|k: int| 0 <= k < j + 1 implies s[k] != 10u8 by {
                    if k > 0 {
                        assert(t[k - 1] == s[k]);
                        assert(t[k - 1] != 10u8);
                    }
                }
            },
            None => {
                assert forall|k: int| 0 <= k < s.len() implies s[k] != 10u8 by {
                    if k > 0 {
                        assert(t[k - 1] == s[k]);
                        assert(t[k - 1] != 10u8);
                    }
                }
            },
        }
    }
}

/// If `j` is the index of the first line feed in `s`, `find_nl` finds it.
pub proof fn lemma_find_nl_is(s: Seq<u8>, j: int)
    requires
        0 <= j < s.len(),
        s[j] == 10u8,
        forall|k: int| 0 <= k < j ==> s[k] != 10u8,
    ensures
        find_nl(s) == Some(j),
{
    lemma_find_nl_spec(s);
    match find_nl(s) {
        Some(jp) => {
            if jp < j {
                assert(s[jp] != 10u8);
            } else if jp > j {
                assert(s[j] != 10u8);
            }
        },
        None => {
            assert(s[j] != 10u8);
        },
    }
}

/// A sequence without a line feed makes `find_nl` return `None`.
pub proof fn lemma_find_nl_none(s: Seq<u8>)
    requires
        forall|k: int| 0 <= k < s.len() ==> s[k] != 10u8,
    ensures
        find_nl(s) is None,
{
    lemma_find_nl_spec(s);
    match find_nl(s) {
        Some(j) => {
            assert(s[j] != 10u8);
        },
        None => {},
    }
}

/// How an emitted record relates to the logical line structure of the stream.
pub enum Tag {
    /// A newline-terminated record of a line that was never force-split.
    Full,
    /// A fragment produced by force-splitting an over-long line, or any later
    /// piece of such a line, including its final newline-terminated piece.
    Partial,
    /// The residual bytes, possibly none, left when the stream ended.
    Eof,
}

/// The record owed at some position of the stream, together with the reader
/// state that holds after it is emitted.
pub struct RecordSpec {
    /// How the record relates to the logical line structure.
    pub tag: Tag,
    /// The bytes of the record.
    pub text: Seq<u8>,
    /// The stream position after the record.
    pub pos: int,
    /// Whether the line in progress has already had a fragment emitted.
    pub sent: bool,
}

/// The single record owed at position `pos` of `input`, given the byte
/// budget `max` and whether the current logical line has already been split
/// (`sent`).
pub open spec fn spec_next(input: Seq<u8>, pos: int, max: int, sent: bool) -> RecordSpec {
    let rest = input.skip(pos);
    match find_nl(rest) {
        Some(j) => if j + 1 <= max {
            RecordSpec {
                tag: if sent {
                    Tag::Partial
                } else {
                    Tag::Full
                },
                text: rest.take(j + 1),
                pos: pos + j + 1,
                sent: false,
            }
        } else {
            RecordSpec { tag: Tag::Partial, text: rest.take(max), pos: pos + max, sent: true }
        },
        None => if rest.len() <= max {
            RecordSpec { tag: Tag::Eof, text: rest, pos: input.len() as int, sent: sent }
        } else {
            RecordSpec { tag: Tag::Partial, text: rest.take(max), pos: pos + max, sent: true }
        },
    }
}

/// Basic facts about `spec_next`: the record is exactly the consumed range
/// of the input, it never exceeds the budget, and the position advances
/// unless the stream had ended.
pub proof fn lemma_spec_next(input: Seq<u8>, pos: int, max: int, sent: bool)
    ensures
        0 <= pos <= input.len() && 1 <= max ==> ({
            let nx = spec_next(input, pos, max, sent);
            &&& pos <= nx.pos <= input.len()
            &&& nx.text == input.subrange(pos, nx.pos)
            &&& nx.text.len() <= max
            &&& (nx.tag is Eof ==> nx.pos == input.len())
            &&& (!(nx.tag is Eof) ==> pos < nx.pos)
        }),
{
    if 0 <= pos <= input.len() && 1 <= max {
        let rest = input.skip(pos);
        lemma_find_nl_spec(rest);
        match find_nl(rest) {
            Some(j) => {
                if j + 1 <= max {
                    assert(rest.take(j + 1) =~= input.subrange(pos, pos + j + 1));
                } else {
                    assert(rest.take(max) =~= input.subrange(pos, pos + max));
                }
            },
            None => {
                if rest.len() <= max {
                    assert(rest =~= input.subrange(pos, input.len() as int));
                } else {
                    assert(rest.take(max) =~= input.subrange(pos, pos + max));
                }
            },
        }
    }
}

/// Every record owed from position `pos` to the end of the stream, in order.
pub open spec fn spec_records(input: Seq<u8>, pos: int, max: int, sent: bool) -> Seq<RecordSpec>
    decreases input.len() - pos,
    when 0 <= pos <= input.len() && 1 <= max
    via spec_records_decreases
{
    let nx = spec_next(input, pos, max, sent);
    if nx.tag is Eof {
        seq![nx]
    } else {
        seq![nx] + spec_records(input, nx.pos, max, nx.sent)
    }
}

#[via_fn]
proof fn spec_records_decreases(input: Seq<u8>, pos: int, max: int, sent: bool) {
    lemma_spec_next(input, pos, max, sent);
}

/// The concatenation of the texts of a sequence of records.
pub open spec fn concat_texts(rs: Seq<RecordSpec>) -> Seq<u8>
    decreases rs.len(),
{
    if rs.len() == 0 {
        Seq::empty()
    } else {
        rs[0].text + concat_texts(rs.skip(1))
    }
}

/// Law: no record owed by the stream model exceeds the byte budget.
pub proof fn lemma_records_bounded(input: Seq<u8>, pos: int, max: int, sent: bool)
    requires
        0 <= pos <= input.len(),
        1 <= max,
    ensures
        forall|i: int| 0 <= i < spec_records(input, pos, max, sent).len()
            ==> #[trigger] spec_records(input, pos, max, sent)[i].text.len() <= max,
    decreases input.len() - pos,
{
    let nx = spec_next(input, pos, max, sent);
    lemma_spec_next(input, pos, max, sent);
    let rs = spec_records(input, pos, max, sent);
    if nx.tag is Eof {
    } else {
        lemma_records_bounded(input, nx.pos, max, nx.sent);
        let tail = spec_records(input, nx.pos, max, nx.sent);
        assert forall|i: int| 0 <= i < rs.len() implies #[trigger] rs[i].text.len() <= max by {
            if i > 0 {
                assert(rs[i] == tail[i - 1]);
            }
        }
    }
}

/// Law: concatenating, in order, the texts of all records owed from `pos`
/// yields exactly the remaining input bytes; splitting loses nothing.
pub proof fn lemma_records_lossless(input: Seq<u8>, pos: int, max: int, sent: bool)
    requires
        0 <= pos <= input.len(),
        1 <= max,
    ensures
        concat_texts(spec_records(input, pos, max, sent)) == input.skip(pos),
    decreases input.len() - pos,
{
    let nx = spec_next(input, pos, max, sent);
    lemma_spec_next(input, pos, max, sent);
    let rs = spec_records(input, pos, max, sent);
    if nx.tag is Eof {
        assert(rs == seq![nx]);
        assert(rs.skip(1) =~= Seq::<RecordSpec>::empty());
        assert(concat_texts(rs.skip(1)) == Seq::<u8>::empty());
        assert(concat_texts(rs) == nx.text + concat_texts(rs.skip(1)));
        assert(nx.text + Seq::<u8>::empty() =~= nx.text);
        assert(nx.text =~= input.skip(pos));
    } else {
        lemma_records_lossless(input, nx.pos, max, nx.sent);
        let tail = spec_records(input, nx.pos, max, nx.sent);
        assert(rs.skip(1) =~= tail);
        assert(concat_texts(rs) == nx.text + concat_texts(tail));
        assert(input.subrange(pos, nx.pos) + input.skip(nx.pos) =~= input.skip(pos));
    }
}


/// Law: the record owed at a position heads the owed record sequence, and
/// the records after it are exactly those owed from the position it leaves
/// behind. Together with `read_line`'s contract, successive calls walk
/// `spec_records` record by record.
pub proof fn lemma_records_step(input: Seq<u8>, pos: int, max: int, sent: bool)
    requires
        0 <= pos <= input.len(),
        1 <= max,
    ensures
        spec_records(input, pos, max, sent).len() >= 1,
        spec_records(input, pos, max, sent)[0] == spec_next(input, pos, max, sent),
        ({
            let nx = spec_next(input, pos, max, sent);
            &&& (nx.tag is Eof ==> spec_records(input, pos, max, sent).len() == 1)
            &&& (!(nx.tag is Eof) ==> spec_records(input, pos, max, sent).skip(1)
                == spec_records(input, nx.pos, max, nx.sent))
        }),
{
    let nx = spec_next(input, pos, max, sent);
    lemma_spec_next(input, pos, max, sent);
    let rs = spec_records(input, pos, max, sent);
    if nx.tag is Eof {
    } else {
        assert(rs.skip(1) =~= spec_records(input, nx.pos, max, nx.sent));
    }
}

} // verus!
