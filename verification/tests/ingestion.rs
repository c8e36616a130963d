use agent_memory::index::FileKind;
use agent_memory::index::FileRef;
use agent_memory::ingest::chunks_of_file;
use agent_memory::ingest::draft_chunks;
use agent_memory::ingest::name_of;
use agent_memory::ingest::ChunkDraft;
use agent_memory::ingest::MIN_SOURCE_CHARS;
use agent_memory::ingest::NOTE_CHUNK_CHARS;

fn note(path: &str, label: &str) -> FileRef {
    FileRef { path: path.to_string(), kind: FileKind::Markdown, label: label.to_string(), mtime: Some(1) }
}

fn draft(content: &str, source: &str, path: &str, date: Option<&str>, agent: &str) -> ChunkDraft {
    ChunkDraft {
        content: content.to_string(),
        source: source.to_string(),
        source_path: path.to_string(),
        source_date: date.map(|d| d.to_string()),
        agent_id: agent.to_string(),
    }
}

#[test]
fn the_note_thresholds_are_the_documented_ones() {
    assert_eq!(NOTE_CHUNK_CHARS, 800);
    assert_eq!(MIN_SOURCE_CHARS, 30);
}

#[test]
fn the_file_name_is_what_follows_the_last_slash() {
    assert_eq!(name_of("notes/2026-01-30.md"), "2026-01-30.md");
    assert_eq!(name_of("/a/b/c.jsonl"), "c.jsonl");
    assert_eq!(name_of("plain.md"), "plain.md");
    assert_eq!(name_of("dir/"), "");
    assert_eq!(name_of(""), "");
}

#[test]
fn a_note_gives_one_draft_per_chunk() {
    let first = "f".repeat(500);
    let second = "s".repeat(400);
    let text = format!("{}\n\n{}\n\ntail", first, second);
    let file = note("notes/2026-01-30.md", "daily_note");
    assert_eq!(
        draft_chunks(&file, &text, "me"),
        vec![
            draft(&first, "daily_note", "notes/2026-01-30.md", Some("2026-01-30"), "me"),
            draft(&format!("{}\n\ntail", second), "daily_note", "notes/2026-01-30.md", Some("2026-01-30"), "me"),
        ]
    );
}

#[test]
fn a_note_of_fewer_than_thirty_characters_gives_nothing() {
    let file = note("notes/short.md", "daily_note");
    assert_eq!(draft_chunks(&file, &"a".repeat(29), "me"), Vec::<ChunkDraft>::new());
    assert_eq!(
        draft_chunks(&file, &"a".repeat(30), "me"),
        vec![draft(&"a".repeat(30), "daily_note", "notes/short.md", None, "me")]
    );
    assert_eq!(chunks_of_file(FileKind::Markdown, &"a".repeat(29)), Vec::<String>::new());
    assert_eq!(chunks_of_file(FileKind::Markdown, &"é".repeat(30)), vec!["é".repeat(30)]);
}

#[test]
fn the_date_comes_from_the_file_name_alone() {
    let text = "a note that is long enough to be kept";
    assert_eq!(
        draft_chunks(&note("logs/2026-01-30/notes.md", "log"), text, "me"),
        vec![draft(text, "log", "logs/2026-01-30/notes.md", None, "me")]
    );
    assert_eq!(
        draft_chunks(&note("logs/2025-01-01/x-2026-01-30-final.md", "log"), text, "me"),
        vec![draft(text, "log", "logs/2025-01-01/x-2026-01-30-final.md", Some("2026-01-30"), "me")]
    );
}

#[test]
fn a_transcript_gives_drafts_labelled_transcript() {
    let file = FileRef {
        path: "t/session-2026-02-01.jsonl".to_string(),
        kind: FileKind::Transcript,
        label: "chat".to_string(),
        mtime: None,
    };
    let text = "{\"role\":\"user\",\"content\":\"Please summarise the meeting notes.\"}\nnoise\n";
    assert_eq!(
        draft_chunks(&file, text, "agent-7"),
        vec![draft(
            "[user] Please summarise the meeting notes.",
            "transcript",
            "t/session-2026-02-01.jsonl",
            Some("2026-02-01"),
            "agent-7"
        )]
    );
    assert_eq!(draft_chunks(&file, "noise only", "agent-7"), Vec::<ChunkDraft>::new());
}

#[test]
fn a_short_transcript_is_still_read() {
    let text = "{\"role\":\"user\",\"content\":\"123456789012345678901\"}";
    assert_eq!(
        chunks_of_file(FileKind::Transcript, text),
        vec!["[user] 123456789012345678901".to_string()]
    );
}
