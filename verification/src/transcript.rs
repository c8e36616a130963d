//! The transcript normalizer: reads a conversation kept as one JSON record
//! per line, keeps what the user and the assistant said, and chunks it.
//!
//! A record is either simple, with a `role` and a `content` of its own, or an
//! envelope whose `type` is `"message"` and whose `message` member holds them.
//! The content is a string, or a list of segments of which those of type
//! `"text"` count.

use vstd::prelude::*;
use crate::chunk::blank;
use crate::chunk::blank_line;
use crate::chunk::chunk_chars;
use crate::chunk::chunks;
use crate::chunk::is_kept;
use crate::chunk::lemma_chunks_cover_paragraphs;
use crate::chunk::MIN_CHUNK_CHARS;
use crate::chunk::to_strings;
use crate::json::parse_json;
use crate::json::parsed_json;
use crate::json::Json;
use crate::text::append;
use crate::text::chars_of;
use crate::text::is_text;
use crate::text::join;
use crate::text::joined;
use crate::text::pieces;
use crate::text::split;
use crate::text::string_of;
use crate::text::texts;
use crate::text::trim;
use crate::text::trimmed;

verus! {

/// The limit under which the text of a transcript is chunked.
pub const TRANSCRIPT_CHUNK_CHARS: usize = 1000;

/// A message is kept only if its content is longer than this many characters.
pub const MIN_MESSAGE_CHARS: usize = 20;

/// What separates the records of a transcript.
pub open spec fn line_feed() -> Seq<char> {
    seq!['\n']
}

/// What joins the text segments of one content.
pub open spec fn space() -> Seq<char> {
    seq![' ']
}

/// The text that one segment of a content contributes: that of its `text`
/// member, if the segment's `type` is `"text"`.
pub open spec fn segment_text(segment: Json) -> Option<Seq<char>> {
    if segment.text_field("type"@) == Some("text"@) {
        segment.text_field("text"@)
    } else {
        None
    }
}

/// The texts that the segments contribute, in order.
pub open spec fn segment_texts(segments: Seq<Json>) -> Seq<Seq<char>> {
    segments.filter_map(|segment: Json| segment_text(segment))
}

/// The content of a record as flat text: a string as it is, a list of
/// segments as its texts with single spaces between them, anything else
/// (and no content at all) as the empty text.
pub open spec fn content_text(content: Option<Json>) -> Seq<char> {
    match content {
        Some(Json::Text(s)) => s@,
        Some(Json::Array(segments)) => joined(segment_texts(segments@), space()),
        _ => Seq::empty(),
    }
}

/// Whether a record is an envelope around the message proper.
pub open spec fn is_envelope(entry: Json) -> bool {
    entry.text_field("type"@) == Some("message"@)
}

/// The record that holds role and content: the `message` member of an
/// envelope that has one, else the entry itself.
pub open spec fn message_record(entry: Json) -> Json {
    if is_envelope(entry) {
        match entry.field("message"@) {
            Some(inner) => inner,
            None => entry,
        }
    } else {
        entry
    }
}

/// The role of a record; empty where `role` is missing or not a string.
pub open spec fn role_of(entry: Json) -> Seq<char> {
    match message_record(entry).text_field("role"@) {
        Some(role) => role,
        None => Seq::empty(),
    }
}

/// The content of a record as flat text.
pub open spec fn content_of(entry: Json) -> Seq<char> {
    content_text(message_record(entry).field("content"@))
}

/// Whether a message of this role and content is kept.
pub open spec fn is_retained(role: Seq<char>, content: Seq<char>) -> bool {
    (role == "user"@ || role == "assistant"@) && content.len() > MIN_MESSAGE_CHARS
}

/// A message as it enters the text: `[role] content`.
pub open spec fn rendered(role: Seq<char>, content: Seq<char>) -> Seq<char> {
    seq!['['] + role + seq![']', ' '] + content
}

/// The message that a record contributes, if it is kept.
pub open spec fn message_of(entry: Json) -> Option<Seq<char>> {
    if is_retained(role_of(entry), content_of(entry)) {
        Some(rendered(role_of(entry), content_of(entry)))
    } else {
        None
    }
}

/// The message that one line of a transcript contributes: none for a blank
/// line, for a line that is not JSON, and for a record that is not kept.
pub open spec fn line_message(line: Seq<char>) -> Option<Seq<char>> {
    let record = trimmed(line);
    if record.len() == 0 {
        None
    } else {
        match parsed_json(record) {
            Some(entry) => message_of(entry),
            None => None,
        }
    }
}

/// The messages that the lines contribute, in order.
pub open spec fn messages_in(lines: Seq<Seq<char>>) -> Seq<Seq<char>> {
    lines.filter_map(|line: Seq<char>| line_message(line))
}

/// The messages of a transcript, joined by blank lines.
pub open spec fn transcript_text(text: Seq<char>) -> Seq<char> {
    joined(messages_in(pieces(text, line_feed())), blank_line())
}

/// The chunks of a transcript.
pub open spec fn transcript_chunks(text: Seq<char>) -> Seq<Seq<char>> {
    chunks(transcript_text(text), TRANSCRIPT_CHUNK_CHARS as int)
}

proof fn lemma_segments_step(segments: Seq<Json>, i: int)
    requires
        0 <= i < segments.len(),
    ensures
        segment_texts(segments.take(i + 1)) == match segment_text(segments[i]) {
            Some(t) => segment_texts(segments.take(i)).push(t),
            None => segment_texts(segments.take(i)),
        },
{
    assert(segments.take(i + 1).drop_last() =~= segments.take(i));
    assert(segments.take(i + 1).last() == segments[i]);
    match segment_text(segments[i]) {
        Some(t) => {
            assert(segment_texts(segments.take(i)) + seq![t] =~= segment_texts(
                segments.take(i),
            ).push(t));
        },
        None => {},
    }
}

proof fn lemma_messages_step(lines: Seq<Seq<char>>, i: int)
    requires
        0 <= i < lines.len(),
    ensures
        messages_in(lines.take(i + 1)) == match line_message(lines[i]) {
            Some(m) => messages_in(lines.take(i)).push(m),
            None => messages_in(lines.take(i)),
        },
{
    assert(lines.take(i + 1).drop_last() =~= lines.take(i));
    assert(lines.take(i + 1).last() == lines[i]);
    match line_message(lines[i]) {
        Some(m) => {
            assert(messages_in(lines.take(i)) + seq![m] =~= messages_in(lines.take(i)).push(m));
        },
        None => {},
    }
}

/// A line that contributes no message, because it is blank, is not JSON or
/// holds a record that is not kept, is passed over: the messages are those
/// of the transcript without that line.
pub proof fn lemma_skipped_line(lines: Seq<Seq<char>>, i: int)
    requires
        0 <= i < lines.len(),
        line_message(lines[i]) is None,
    ensures
        messages_in(lines) == messages_in(lines.remove(i)),
    decreases lines.len(),
{
    if i == lines.len() - 1 {
        assert(lines.remove(i) =~= lines.drop_last());
    } else {
        let others = lines.remove(i);
        lemma_skipped_line(lines.drop_last(), i);
        assert(others.drop_last() =~= lines.drop_last().remove(i));
        assert(others.last() == lines.last());
    }
}

/// A record contributes a message exactly if its role is `user` or
/// `assistant` and its content is longer than `MIN_MESSAGE_CHARS` characters,
/// whatever else it holds.
pub proof fn lemma_kept_records(entry: Json)
    ensures
        message_of(entry) is Some <==> (role_of(entry) == "user"@ || role_of(entry) == "assistant"@)
            && content_of(entry).len() > MIN_MESSAGE_CHARS,
        message_of(entry) matches Some(m) ==> m == rendered(role_of(entry), content_of(entry)),
{
}

/// The content of `record` as flat text.
pub fn content_chars(record: &Json) -> (out: Vec<char>)
    ensures
        out@ == content_text(record.field("content"@)),
{
    match record.get("content") {
        Some(value) => match value {
            Json::Text(s) => chars_of(s.as_str()),
            Json::Array(segments) => {
                let mut parts: Vec<Vec<char>> = Vec::new();
                let mut i: usize = 0;
                assert(segment_texts(segments@.take(0)) =~= Seq::<Seq<char>>::empty());
                while i < segments.len()
                    invariant
                        i <= segments.len(),
                        texts(parts@) == segment_texts(segments@.take(i as int)),
                    decreases segments.len() - i,
                {
                    proof {
                        lemma_segments_step(segments@, i as int);
                    }
                    let segment = &segments[i];
                    let counts = match segment.get_str("type") {
                        Some(kind) => is_text(kind, "text"),
                        None => false,
                    };
                    if counts {
                        match segment.get_str("text") {
                            Some(t) => {
                                let ghost before = texts(parts@);
                                parts.push(chars_of(t.as_str()));
                                assert(texts(parts@) =~= before.push(t@));
                            },
                            None => {},
                        }
                    }
                    i += 1;
                }
                assert(segments@.take(i as int) =~= segments@);
                let mut gap: Vec<char> = Vec::new();
                gap.push(' ');
                assert(gap@ =~= space());
                join(&parts, gap.as_slice())
            },
            _ => Vec::new(),
        },
        None => Vec::new(),
    }
}

/// The message that `entry` contributes, as characters.
pub fn message_chars(entry: &Json) -> (message: Option<Vec<char>>)
    ensures
        match message {
            Some(m) => message_of(*entry) == Some(m@),
            None => message_of(*entry) is None,
        },
{
    let enveloped = match entry.get_str("type") {
        Some(kind) => is_text(kind, "message"),
        None => false,
    };
    let record: &Json = if enveloped {
        match entry.get("message") {
            Some(inner) => inner,
            None => entry,
        }
    } else {
        entry
    };
    assert(*record == message_record(*entry));
    let content = content_chars(record);
    match record.get_str("role") {
        Some(role) => {
            if (is_text(role, "user") || is_text(role, "assistant")) && content.len()
                > MIN_MESSAGE_CHARS {
                let role_chars = chars_of(role.as_str());
                let mut out: Vec<char> = Vec::new();
                out.push('[');
                append(&mut out, role_chars.as_slice());
                out.push(']');
                out.push(' ');
                append(&mut out, content.as_slice());
                assert(out@ =~= rendered(role@, content@));
                Some(out)
            } else {
                None
            }
        },
        None => {
            proof {
                reveal_strlit("user");
                reveal_strlit("assistant");
            }
            None
        },
    }
}

/// The message that a record contributes to the text of a transcript:
/// `[role] content` where the role is `user` or `assistant` and the content
/// is longer than `MIN_MESSAGE_CHARS` characters, else nothing.
pub fn render_message(entry: &Json) -> (message: Option<String>)
    ensures
        message.deep_view() == message_of(*entry),
{
    match message_chars(entry) {
        Some(m) => Some(string_of(m.as_slice())),
        None => None,
    }
}

/// Reads a transcript and returns its chunks.
///
/// Each line is one record. Blank lines and lines that are not JSON are
/// skipped, and so are records that are not kept. The kept messages, each
/// rendered as `[role] content`, are joined by blank lines, and that text is
/// chunked under `TRANSCRIPT_CHUNK_CHARS`. A transcript without a kept message
/// has no chunks.
pub fn parse_transcript(text: &str) -> (out: Vec<String>)
    ensures
        out.deep_view() == transcript_chunks(text@),
        forall|i: int| 0 <= i < out.len() ==> (#[trigger] out[i])@.len() > MIN_CHUNK_CHARS,
{
    let chars = chars_of(text);
    let mut feed: Vec<char> = Vec::new();
    feed.push('\n');
    assert(feed@ =~= line_feed());
    let lines = split(chars.as_slice(), feed.as_slice());
    let mut messages: Vec<Vec<char>> = Vec::new();
    let mut i: usize = 0;
    assert(messages_in(texts(lines@).take(0)) =~= Seq::<Seq<char>>::empty());
    while i < lines.len()
        invariant
            i <= lines.len(),
            texts(messages@) == messages_in(texts(lines@).take(i as int)),
        decreases lines.len() - i,
    {
        proof {
            lemma_messages_step(texts(lines@), i as int);
        }
        let record = trim(lines[i].as_slice());
        if record.len() > 0 {
            let line = string_of(record);
            match parse_json(line.as_str()) {
                Some(entry) => match message_chars(&entry) {
                    Some(m) => {
                        let ghost before = texts(messages@);
                        let ghost added = m@;
                        messages.push(m);
                        assert(texts(messages@) =~= before.push(added));
                    },
                    None => {},
                },
                None => {},
            }
        }
        i += 1;
    }
    assert(texts(lines@).take(i as int) =~= texts(lines@));
    let gap = blank();
    let full = join(&messages, gap.as_slice());
    let all = chunk_chars(full.as_slice(), TRANSCRIPT_CHUNK_CHARS);
    let out = to_strings(&all);
    proof {
        lemma_chunks_cover_paragraphs(full@, TRANSCRIPT_CHUNK_CHARS as int);
        assert forall|i: int| 0 <= i < out.len() implies (#[trigger] out[i])@.len()
            > MIN_CHUNK_CHARS by {
            assert(out.deep_view()[i] == out[i]@);
            assert(is_kept(chunks(full@, TRANSCRIPT_CHUNK_CHARS as int)[i]));
        }
    }
    out
}

} // verus!
