use agent_memory::chunk::chunk_text;
use agent_memory::chunk::extract_date;
use agent_memory::chunk::MIN_CHUNK_CHARS;

#[test]
fn empty_text_has_no_chunks() {
    assert_eq!(chunk_text("", 800), Vec::<String>::new());
    assert_eq!(chunk_text("", 0), Vec::<String>::new());
    assert_eq!(chunk_text("", usize::MAX), Vec::<String>::new());
}

#[test]
fn whitespace_only_text_has_no_chunks() {
    assert_eq!(chunk_text(" \n\n \t \n\n\n", 800), Vec::<String>::new());
}

#[test]
fn twenty_characters_are_dropped_and_twenty_one_kept() {
    assert_eq!(MIN_CHUNK_CHARS, 20);
    assert_eq!(chunk_text(&"a".repeat(20), 800), Vec::<String>::new());
    assert_eq!(chunk_text(&"a".repeat(21), 800), vec!["a".repeat(21)]);
}

#[test]
fn paragraphs_are_trimmed_and_joined_by_a_blank_line() {
    let text = "  first paragraph here  \n\n\n\tsecond paragraph here\n";
    assert_eq!(
        chunk_text(text, 800),
        vec!["first paragraph here\n\nsecond paragraph here".to_string()]
    );
}

#[test]
fn a_chunk_is_closed_when_the_next_paragraph_would_exceed_the_limit() {
    let a = "a".repeat(30);
    let b = "b".repeat(30);
    let c = "c".repeat(30);
    let text = format!("{}\n\n{}\n\n{}", a, b, c);
    // 30 + 2 + 30 = 62 fits under 62, a third paragraph does not.
    assert_eq!(chunk_text(&text, 62), vec![format!("{}\n\n{}", a, b), c.clone()]);
    // One character less and no two paragraphs fit together.
    assert_eq!(chunk_text(&text, 61), vec![a.clone(), b.clone(), c.clone()]);
    assert_eq!(chunk_text(&text, 94), vec![format!("{}\n\n{}\n\n{}", a, b, c)]);
}

#[test]
fn an_oversized_paragraph_is_a_chunk_of_its_own() {
    let long = "x".repeat(100);
    let short = "y".repeat(25);
    let text = format!("{}\n\n{}\n\n{}", short, long, short);
    assert_eq!(chunk_text(&text, 40), vec![short.clone(), long.clone(), short.clone()]);
    assert_eq!(chunk_text(&long, 1), vec![long.clone()]);
    assert_eq!(chunk_text(&long, 0), vec![long]);
}

#[test]
fn short_chunks_are_dropped_after_grouping() {
    let long = "z".repeat(50);
    let text = format!("tiny\n\n{}\n\nsmall", long);
    // "tiny" cannot take the long paragraph in, is closed alone and dropped.
    assert_eq!(chunk_text(&text, 52), vec![long.clone()]);
    // With room for both, the short paragraph survives inside the chunk.
    assert_eq!(
        chunk_text(&text, 800),
        vec![format!("tiny\n\n{}\n\nsmall", long)]
    );
}

#[test]
fn lengths_count_characters() {
    let text = "é".repeat(21);
    assert_eq!(chunk_text(&text, 800), vec![text.clone()]);
    assert_eq!(chunk_text(&"é".repeat(20), 800), Vec::<String>::new());
}

#[test]
fn chunking_twice_gives_the_same_chunks() {
    let text = "alpha beta gamma delta epsilon\n\nzeta eta theta iota kappa lambda";
    assert_eq!(chunk_text(text, 40), chunk_text(text, 40));
}

#[test]
fn date_at_the_start_of_a_file_name() {
    assert_eq!(extract_date("2026-01-30.md"), Some("2026-01-30".to_string()));
}

#[test]
fn no_date_in_a_file_name() {
    assert_eq!(extract_date("notes.md"), None);
    assert_eq!(extract_date(""), None);
    assert_eq!(extract_date("2026-1-30.md"), None);
}

#[test]
fn date_in_the_middle_of_a_file_name() {
    assert_eq!(
        extract_date("log-2026-01-30-final.jsonl"),
        Some("2026-01-30".to_string())
    );
}

#[test]
fn the_first_of_two_dates_is_taken() {
    assert_eq!(
        extract_date("2025-12-31_to_2026-01-30.md"),
        Some("2025-12-31".to_string())
    );
}

#[test]
fn a_date_need_not_be_of_the_calendar() {
    assert_eq!(extract_date("2026-13-99.md"), Some("2026-13-99".to_string()));
}

#[test]
fn every_paragraph_lands_in_one_chunk_in_order() {
    let paragraphs: Vec<String> = (0..12)
        .map(|i| format!("paragraph number {} {}", i, "w".repeat(10 + 7 * i)))
        .collect();
    let text = paragraphs.join("\n\n");
    for max_chars in [0usize, 40, 80, 150, 400, 5000] {
        let chunks = chunk_text(&text, max_chars);
        let mut back: Vec<String> = Vec::new();
        for chunk in &chunks {
            let parts: Vec<&str> = chunk.split("\n\n").collect();
            if chunk.chars().count() > max_chars {
                assert_eq!(parts.len(), 1);
            }
            for part in parts {
                back.push(part.to_string());
            }
        }
        assert_eq!(back, paragraphs);
    }
}

#[test]
fn the_date_pattern_is_the_documented_one() {
    assert_eq!(agent_memory::chunk::DATE_PATTERN, r"\d{4}-\d{2}-\d{2}");
}
