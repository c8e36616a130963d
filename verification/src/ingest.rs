//! Ingestion: what is written to the store for one source file.
//!
//! A file gives one chunk draft per chunk of its text. A draft is a chunk
//! without what is only known when it is written: its identifier, its
//! embedding and its creation time.

use vstd::prelude::*;
use vstd::slice::slice_subrange;
use crate::chunk::chunk_text;
use crate::chunk::chunks;
use crate::chunk::extract_date;
use crate::chunk::first_match;
use crate::chunk::DATE_PATTERN;
use crate::chunk::MIN_CHUNK_CHARS;
use crate::index::FileKind;
use crate::index::FileRef;
use crate::text::chars_of;
use crate::text::string_of;
use crate::transcript::parse_transcript;
use crate::transcript::transcript_chunks;

verus! {

/// The limit under which notes are chunked.
pub const NOTE_CHUNK_CHARS: usize = 800;

/// A note of fewer characters than this is not chunked at all.
pub const MIN_SOURCE_CHARS: usize = 30;

/// A chunk that is ready to be embedded and written.
#[derive(Debug, Clone, PartialEq, Eq)]
pub struct ChunkDraft {
    /// The text of the chunk, of more than `MIN_CHUNK_CHARS` characters.
    pub content: String,
    /// The label of the chunk's origin.
    pub source: String,
    /// The path of the file that the chunk comes from.
    pub source_path: String,
    /// The date that the file's name carries, if it carries one.
    pub source_date: Option<String>,
    /// The agent that the chunk belongs to.
    pub agent_id: String,
}

/// Where the file name starts in `path`: behind its last `/`.
pub open spec fn name_start(path: Seq<char>) -> int
    decreases path.len(),
{
    if path.len() == 0 {
        0
    } else if path.last() == '/' {
        path.len() as int
    } else {
        name_start(path.drop_last())
    }
}

/// The file name at the end of `path`: what follows its last `/`.
pub open spec fn file_name(path: Seq<char>) -> Seq<char> {
    path.subrange(name_start(path), path.len() as int)
}

/// The chunks of a file's text: a note of fewer than `MIN_SOURCE_CHARS`
/// characters has none, a longer one is chunked under `NOTE_CHUNK_CHARS`;
/// a transcript is read record by record.
pub open spec fn file_chunks(kind: FileKind, text: Seq<char>) -> Seq<Seq<char>> {
    match kind {
        FileKind::Markdown => if text.len() < MIN_SOURCE_CHARS {
            Seq::empty()
        } else {
            chunks(text, NOTE_CHUNK_CHARS as int)
        },
        FileKind::Transcript => transcript_chunks(text),
    }
}

/// The source label of a file's chunks: `transcript` for a transcript, the
/// file's own label for a note.
pub open spec fn source_label(kind: FileKind, label: Seq<char>) -> Seq<char> {
    match kind {
        FileKind::Markdown => label,
        FileKind::Transcript => "transcript"@,
    }
}

/// The date of a file: the first match of `DATE_PATTERN` in its name.
pub open spec fn file_date(path: Seq<char>) -> Option<Seq<char>> {
    first_match(DATE_PATTERN@, file_name(path))
}

/// Whether `draft` is the chunk `content` of the file `file`, for `agent`.
pub open spec fn is_draft_of(draft: ChunkDraft, file: FileRef, agent: Seq<char>, content: Seq<char>) -> bool {
    &&& draft.content@ == content
    &&& draft.source@ == source_label(file.kind, file.label@)
    &&& draft.source_path@ == file.path@
    &&& draft.source_date.deep_view() == file_date(file.path@)
    &&& draft.agent_id@ == agent
}

/// The file name at the end of `path`.
pub fn name_of(path: &str) -> (name: String)
    ensures
        name@ == file_name(path@),
{
    let chars = chars_of(path);
    let mut at: usize = chars.len();
    assert(chars@.take(at as int) =~= chars@);
    while at > 0 && chars[at - 1] != '/'
        invariant
            at <= chars.len(),
            name_start(chars@.take(at as int)) == name_start(chars@),
        decreases at,
    {
        assert(chars@.take(at as int).drop_last() =~= chars@.take(at - 1));
        at -= 1;
    }
    string_of(slice_subrange(chars.as_slice(), at, chars.len()))
}

/// The chunks of a file's text.
pub fn chunks_of_file(kind: FileKind, text: &str) -> (out: Vec<String>)
    ensures
        out.deep_view() == file_chunks(kind, text@),
        forall|i: int| 0 <= i < out.len() ==> (#[trigger] out[i])@.len() > MIN_CHUNK_CHARS,
{
    match kind {
        FileKind::Markdown => {
            if text.unicode_len() < MIN_SOURCE_CHARS {
                let out: Vec<String> = Vec::new();
                assert(out.deep_view() =~= Seq::<Seq<char>>::empty());
                out
            } else {
                chunk_text(text, NOTE_CHUNK_CHARS)
            }
        },
        FileKind::Transcript => parse_transcript(text),
    }
}

/// The chunk drafts of one file, in the order of its chunks: each carries
/// one chunk of the text, the file's source label and path, the date in the
/// file's name, and the agent.
pub fn draft_chunks(file: &FileRef, text: &str, agent_id: &str) -> (drafts: Vec<ChunkDraft>)
    ensures
        drafts.len() == file_chunks(file.kind, text@).len(),
        forall|i: int|
            0 <= i < drafts.len() ==> is_draft_of(
                #[trigger] drafts[i],
                *file,
                agent_id@,
                file_chunks(file.kind, text@)[i],
            ),
        forall|i: int| 0 <= i < drafts.len() ==> (#[trigger] drafts[i]).content@.len() > MIN_CHUNK_CHARS,
{
    let contents = chunks_of_file(file.kind, text);
    let name = name_of(file.path.as_str());
    let date = extract_date(name.as_str());
    let mut drafts: Vec<ChunkDraft> = Vec::new();
    let mut i: usize = 0;
    while i < contents.len()
        invariant
            i <= contents.len(),
            drafts.len() == i,
            contents.deep_view() == file_chunks(file.kind, text@),
            date.deep_view() == file_date(file.path@),
            forall|j: int| 0 <= j < contents.len() ==> (#[trigger] contents[j])@.len() > MIN_CHUNK_CHARS,
            forall|j: int|
                0 <= j < i ==> is_draft_of(
                    #[trigger] drafts[j],
                    *file,
                    agent_id@,
                    file_chunks(file.kind, text@)[j],
                ),
            forall|j: int| 0 <= j < i ==> (#[trigger] drafts[j]).content@.len() > MIN_CHUNK_CHARS,
        decreases contents.len() - i,
    {
        let source = match file.kind {
            FileKind::Markdown => file.label.clone(),
            FileKind::Transcript => "transcript".to_owned(),
        };
        let source_date = match &date {
            Some(d) => Some(d.clone()),
            None => None,
        };
        assert(contents.deep_view()[i as int] == contents[i as int]@);
        drafts.push(
            ChunkDraft {
                content: contents[i].clone(),
                source: source,
                source_path: file.path.clone(),
                source_date: source_date,
                agent_id: agent_id.to_owned(),
            },
        );
        i += 1;
    }
    assert(contents.deep_view().len() == contents.len());
    drafts
}

} // verus!
