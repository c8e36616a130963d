use agent_memory::index::plan_file;
use agent_memory::index::plan_incremental_index;
use agent_memory::index::ChunkStamp;
use agent_memory::index::FileKind;
use agent_memory::index::FileRef;
use agent_memory::index::IndexAction;
use agent_memory::index::IndexState;
use agent_memory::index::IndexSummary;

fn stamp(agent: &str, path: &str, created_at: i64) -> ChunkStamp {
    ChunkStamp { agent_id: agent.to_string(), source_path: path.to_string(), created_at }
}

fn file(path: &str, mtime: Option<i64>) -> FileRef {
    FileRef { path: path.to_string(), kind: FileKind::Markdown, label: "daily_note".to_string(), mtime }
}

#[test]
fn an_unchanged_file_is_skipped() {
    let state = IndexState::from_chunks(&vec![stamp("me", "/a.md", 100)], "me");
    assert_eq!(plan_file(&file("/a.md", Some(100)), &state), IndexAction::Skip("/a.md".to_string()));
    assert_eq!(plan_file(&file("/a.md", Some(99)), &state), IndexAction::Skip("/a.md".to_string()));
}

#[test]
fn a_file_modified_after_its_watermark_is_updated() {
    let state = IndexState::from_chunks(&vec![stamp("me", "/a.md", 100)], "me");
    assert_eq!(
        plan_file(&file("/a.md", Some(101)), &state),
        IndexAction::Update("/a.md".to_string(), 1)
    );
}

#[test]
fn a_file_without_a_watermark_is_new() {
    let state = IndexState::from_chunks(&vec![stamp("me", "/a.md", 100)], "me");
    assert_eq!(plan_file(&file("/b.md", Some(5)), &state), IndexAction::New("/b.md".to_string()));
    assert_eq!(plan_file(&file("/b.md", None), &state), IndexAction::New("/b.md".to_string()));
    assert_eq!(
        plan_file(&file("/a.md", Some(5)), &IndexState::new()),
        IndexAction::New("/a.md".to_string())
    );
}

#[test]
fn a_file_whose_modification_time_cannot_be_read_is_skipped() {
    let state = IndexState::from_chunks(&vec![stamp("me", "/a.md", 100)], "me");
    assert_eq!(plan_file(&file("/a.md", None), &state), IndexAction::Skip("/a.md".to_string()));
}

#[test]
fn the_watermark_is_the_latest_creation_time_of_the_path() {
    let chunks = vec![
        stamp("me", "/a.md", 50),
        stamp("me", "/b.md", 300),
        stamp("me", "/a.md", 100),
        stamp("me", "/a.md", 70),
        stamp("me", "/c.md", -5),
    ];
    let state = IndexState::from_chunks(&chunks, "me");
    assert_eq!(state.get("/a.md"), Some((100, 3)));
    assert_eq!(state.get("/b.md"), Some((300, 1)));
    assert_eq!(state.get("/c.md"), Some((-5, 1)));
    assert_eq!(state.get("/d.md"), None);
    assert_eq!(state.get(""), None);
    assert_eq!(plan_file(&file("/a.md", Some(100)), &state), IndexAction::Skip("/a.md".to_string()));
    assert_eq!(
        plan_file(&file("/a.md", Some(101)), &state),
        IndexAction::Update("/a.md".to_string(), 3)
    );
}

#[test]
fn the_state_is_scoped_to_one_agent() {
    let chunks = vec![
        stamp("other", "/a.md", 500),
        stamp("me", "/a.md", 100),
        stamp("other", "/b.md", 500),
    ];
    let state = IndexState::from_chunks(&chunks, "me");
    assert_eq!(state.get("/a.md"), Some((100, 1)));
    assert_eq!(state.get("/b.md"), None);
    assert_eq!(plan_file(&file("/b.md", Some(1)), &state), IndexAction::New("/b.md".to_string()));
    assert_eq!(
        plan_file(&file("/a.md", Some(200)), &state),
        IndexAction::Update("/a.md".to_string(), 1)
    );
    assert_eq!(IndexState::from_chunks(&chunks, "nobody").get("/a.md"), None);
}

#[test]
fn the_plan_has_one_action_per_file_in_order() {
    let state = IndexState::from_chunks(
        &vec![stamp("me", "/a.md", 100), stamp("me", "/c.md", 100), stamp("me", "/c.md", 90)],
        "me",
    );
    let files = vec![
        file("/c.md", Some(150)),
        file("/a.md", Some(100)),
        file("/b.md", Some(100)),
        file("/a.md", None),
    ];
    assert_eq!(
        plan_incremental_index(&files, &state),
        vec![
            IndexAction::Update("/c.md".to_string(), 2),
            IndexAction::Skip("/a.md".to_string()),
            IndexAction::New("/b.md".to_string()),
            IndexAction::Skip("/a.md".to_string()),
        ]
    );
    assert_eq!(plan_incremental_index(&Vec::new(), &state), Vec::<IndexAction>::new());
}

#[test]
fn indexing_again_without_a_change_skips_the_file() {
    let mut store: Vec<ChunkStamp> = vec![stamp("me", "/old.md", 10)];
    let found = file("/a.md", Some(150));
    let first = plan_file(&found, &IndexState::from_chunks(&store, "me"));
    assert_eq!(first, IndexAction::New("/a.md".to_string()));
    store.push(stamp("me", "/a.md", 200));
    store.push(stamp("me", "/a.md", 200));
    let second = plan_file(&found, &IndexState::from_chunks(&store, "me"));
    assert_eq!(second, IndexAction::Skip("/a.md".to_string()));
    let mut summary = IndexSummary::new();
    summary.record(&second, 0, 0);
    assert_eq!(summary, IndexSummary::new());
    assert!(summary.is_idle());
}

#[test]
fn the_summary_counts_what_was_done() {
    let mut summary = IndexSummary::new();
    assert!(summary.is_idle());
    summary.record(&IndexAction::Skip("/a.md".to_string()), 7, 9);
    assert_eq!(summary, IndexSummary::new());
    summary.record(&IndexAction::New("/b.md".to_string()), 0, 0);
    assert_eq!(summary, IndexSummary::new());
    assert!(summary.is_idle());
    summary.record(&IndexAction::New("/c.md".to_string()), 0, 4);
    assert_eq!(
        summary,
        IndexSummary { new_files: 1, updated_files: 0, chunks_added: 4, chunks_deleted: 0 }
    );
    assert!(!summary.is_idle());
    summary.record(&IndexAction::Update("/d.md".to_string(), 3), 3, 5);
    summary.record(&IndexAction::Update("/e.md".to_string(), 2), 2, 0);
    assert_eq!(
        summary,
        IndexSummary { new_files: 1, updated_files: 2, chunks_added: 9, chunks_deleted: 5 }
    );
}
