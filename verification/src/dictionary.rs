//! Loading of a dictionary from a line-oriented source.
//!
//! The source is handed over as the bytes that were read from it, or as
//! nothing when it could not be opened. Every line becomes one entry,
//! verbatim: nothing is trimmed, merged or sorted.

use crate::text::string_views;
use vstd::prelude::*;
use vstd::slice::slice_subrange;
use vstd::string::StringExecFns;
use vstd::utf8::{decode_utf8, valid_utf8};

verus! {

/// The byte that ends a line.
pub const LINE_FEED: u8 = 10;

/// The byte that is dropped with the line feed when it stands right before it.
pub const CARRIAGE_RETURN: u8 = 13;

/// Why a dictionary could not be loaded.
#[derive(Debug)]
pub enum DictionaryError {
    /// The source does not exist or could not be opened.
    SourceUnavailable { source: String },
    /// The line with this index, counted from zero, is not valid text.
    LineDecode { line: usize },
}

/// The position of the first line feed at or after `from`, or the length of
/// `bytes` when there is none.
pub open spec fn line_end(bytes: Seq<u8>, from: int) -> int
    decreases bytes.len() - from,
{
    if 0 <= from < bytes.len() && bytes[from] != LINE_FEED {
        line_end(bytes, from + 1)
    } else {
        from
    }
}

/// The content of the line that starts at `start` and stops at `end`, which
/// is the position of its line feed or the end of the source. A carriage
/// return right before the line feed does not belong to the line; one at the
/// end of an unterminated last line does.
pub open spec fn line_content(bytes: Seq<u8>, start: int, end: int) -> Seq<u8> {
    if start < end < bytes.len() && bytes[end - 1] == CARRIAGE_RETURN {
        bytes.subrange(start, end - 1)
    } else {
        bytes.subrange(start, end)
    }
}

/// The lines of `bytes` from position `start` on.
pub open spec fn lines_from(bytes: Seq<u8>, start: int) -> Seq<Seq<u8>>
    decreases bytes.len() - start,
    via lines_from_terminates
{
    if 0 <= start < bytes.len() {
        let end = line_end(bytes, start);
        if end < bytes.len() {
            seq![line_content(bytes, start, end)] + lines_from(bytes, end + 1)
        } else {
            seq![line_content(bytes, start, end)]
        }
    } else {
        Seq::empty()
    }
}

#[via_fn]
proof fn lines_from_terminates(bytes: Seq<u8>, start: int) {
    if 0 <= start < bytes.len() {
        lemma_line_end_bounds(bytes, start);
    }
}

/// The lines of a source, in order. A line feed ends a line; what follows
/// the last line feed is a line of its own unless it is empty.
pub open spec fn source_lines(bytes: Seq<u8>) -> Seq<Seq<u8>> {
    lines_from(bytes, 0)
}

/// The text of each line, for lines that are valid UTF-8.
pub open spec fn decoded_lines(lines: Seq<Seq<u8>>) -> Seq<Seq<char>> {
    lines.map_values(|line: Seq<u8>| decode_utf8(line))
}

/// Whether line `k` is the first one that is not valid UTF-8.
pub open spec fn is_first_undecodable(lines: Seq<Seq<u8>>, k: int) -> bool {
    &&& 0 <= k < lines.len()
    &&& !valid_utf8(lines[k])
    &&& forall|j: int| 0 <= j < k ==> valid_utf8(#[trigger] lines[j])
}

/// Whether `outcome` is what loading gives for a source that was read as
/// `contents`: the decoded lines when the source was there and every line is
/// valid text, else the error that says what went wrong first.
pub open spec fn is_load_outcome(
    dictionary_file: Seq<char>,
    contents: Option<&[u8]>,
    outcome: Result<Seq<Seq<char>>, DictionaryError>,
) -> bool {
    match outcome {
        Ok(entries) => {
            &&& contents matches Some(bytes)
            &&& forall|k: int|
                0 <= k < source_lines(bytes@).len() ==> valid_utf8(
                    #[trigger] source_lines(bytes@)[k],
                )
            &&& entries == decoded_lines(source_lines(bytes@))
        },
        Err(DictionaryError::SourceUnavailable { source }) => {
            &&& contents is None
            &&& source@ == dictionary_file
        },
        Err(DictionaryError::LineDecode { line }) => {
            &&& contents matches Some(bytes)
            &&& is_first_undecodable(source_lines(bytes@), line as int)
        },
    }
}

/// A line ends no earlier than it starts, and no later than the source.
pub proof fn lemma_line_end_bounds(bytes: Seq<u8>, from: int)
    requires
        0 <= from <= bytes.len(),
    ensures
        from <= line_end(bytes, from) <= bytes.len(),
        line_end(bytes, from) < bytes.len() ==> bytes[line_end(bytes, from)] == LINE_FEED,
        forall|k: int| from <= k < line_end(bytes, from) ==> bytes[k] != LINE_FEED,
    decreases bytes.len() - from,
{
    if from < bytes.len() && bytes[from] != LINE_FEED {
        lemma_line_end_bounds(bytes, from + 1);
    }
}

/// `std::str::from_utf8`, with the text it accepts copied into a `String`.
/// Not verified: it is taken to accept exactly the byte sequences that are
/// valid UTF-8, and to give the characters that they encode.
#[verifier::external_body]
fn decode_line(bytes: &[u8]) -> (decoded: Option<String>)
    ensures
        decoded is Some <==> valid_utf8(bytes@),
        decoded matches Some(line) ==> line@ == decode_utf8(bytes@),
{
    match std::str::from_utf8(bytes) {
        Ok(line) => Some(line.to_owned()),
        Err(_) => None,
    }
}

impl DictionaryError {
    /// What `message` returns.
    pub open spec fn message_text(&self) -> Seq<char> {
        match self {
            DictionaryError::SourceUnavailable { source } => "Dictionary file '"@ + source@
                + "' not found"@,
            DictionaryError::LineDecode { line } => "Could not read line"@,
        }
    }

    /// A description of the failure, fit to show to a user.
    pub fn message(&self) -> (text: String)
        ensures
            text@ == self.message_text(),
    {
        match self {
            DictionaryError::SourceUnavailable { source } => {
                let mut text = String::from_str("Dictionary file '");
                text.append(source.as_str());
                text.append("' not found");
                text
            },
            DictionaryError::LineDecode { line } => String::from_str("Could not read line"),
        }
    }
}

/// Reads the entries of a dictionary from what its source gave: `None` when
/// the source could not be opened, else the bytes it holds. Each line is one
/// entry. The first line that is not valid text fails the whole load.
pub fn load_dictionary(dictionary_file: &str, contents: Option<&[u8]>) -> (loaded: Result<
    Vec<String>,
    DictionaryError,
>)
    ensures
        is_load_outcome(
            dictionary_file@,
            contents,
            match loaded {
                Ok(entries) => Ok(string_views(entries@)),
                Err(error) => Err(error),
            },
        ),
{
    let bytes = match contents {
        Some(bytes) => bytes,
        None => {
            return Err(DictionaryError::SourceUnavailable { source: dictionary_file.to_owned() });
        },
    };
    let n = bytes.len();
    let mut entries: Vec<String> = Vec::new();
    let ghost mut done: Seq<Seq<u8>> = Seq::empty();
    let mut start: usize = 0;
    assert(done + lines_from(bytes@, 0) =~= source_lines(bytes@));
    assert(string_views(entries@) =~= decoded_lines(done));
    while start < n
        invariant
            contents == Some(bytes),
            n == bytes@.len(),
            start <= n,
            source_lines(bytes@) == done + lines_from(bytes@, start as int),
            forall|k: int| 0 <= k < done.len() ==> valid_utf8(#[trigger] done[k]),
            string_views(entries@) == decoded_lines(done),
        decreases n - start,
    {
        let mut end: usize = start;
        while end < n && bytes[end] != LINE_FEED
            invariant
                n == bytes@.len(),
                start <= end <= n,
                line_end(bytes@, start as int) == line_end(bytes@, end as int),
            decreases n - end,
        {
            end += 1;
        }
        let stop: usize = if start < end && end < n && bytes[end - 1] == CARRIAGE_RETURN {
            end - 1
        } else {
            end
        };
        let line = slice_subrange(bytes, start, stop);
        let ghost rest = if end < n {
            lines_from(bytes@, end + 1)
        } else {
            Seq::empty()
        };
        proof {
            assert(line@ == line_content(bytes@, start as int, end as int));
            assert(lines_from(bytes@, start as int) =~= seq![line@] + rest);
            assert(source_lines(bytes@) =~= done.push(line@) + rest);
            assert(entries@.len() == done.len()) by {
                assert(string_views(entries@).len() == decoded_lines(done).len());
            }
        }
        match decode_line(line) {
            Some(entry) => {
                proof {
                    let texts = string_views(entries@.push(entry));
                    let grown = decoded_lines(done.push(line@));
                    assert forall|j: int| 0 <= j < texts.len() implies texts[j] == grown[j] by {
                        if j < entries@.len() {
                            assert(string_views(entries@)[j] == decoded_lines(done)[j]);
                        }
                    }
                    assert(texts =~= grown);
                    done = done.push(line@);
                }
                entries.push(entry);
            },
            None => {
                proof {
                    let lines = source_lines(bytes@);
                    assert(lines.len() == done.len() + 1 + rest.len());
                    assert(lines[done.len() as int] == line@);
                    assert(!valid_utf8(lines[done.len() as int]));
                    assert forall|j: int| 0 <= j < done.len() implies valid_utf8(
                        #[trigger] lines[j],
                    ) by {
                        assert(lines[j] == done[j]);
                    }
                }
                return Err(DictionaryError::LineDecode { line: entries.len() });
            },
        }
        if end < n {
            start = end + 1;
        } else {
            start = n;
        }
    }
    proof {
        assert(source_lines(bytes@) =~= done);
    }
    Ok(entries)
}

} // verus!
