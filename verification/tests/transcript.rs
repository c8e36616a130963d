use agent_memory::json::Json;
use agent_memory::transcript::content_chars;
use agent_memory::transcript::parse_transcript;
use agent_memory::transcript::render_message;
use agent_memory::transcript::MIN_MESSAGE_CHARS;
use agent_memory::transcript::TRANSCRIPT_CHUNK_CHARS;

fn text(s: &str) -> Json {
    Json::Text(s.to_string())
}

fn object(members: Vec<(&str, Json)>) -> Json {
    Json::Object(members.into_iter().map(|(k, v)| (k.to_string(), v)).collect())
}

#[test]
fn thresholds_are_the_documented_ones() {
    assert_eq!(TRANSCRIPT_CHUNK_CHARS, 1000);
    assert_eq!(MIN_MESSAGE_CHARS, 20);
}

#[test]
fn a_short_message_is_excluded() {
    assert_eq!(
        parse_transcript("{\"role\":\"user\",\"content\":\"short\"}"),
        Vec::<String>::new()
    );
}

#[test]
fn a_system_message_is_excluded_whatever_its_length() {
    let line = format!("{{\"role\":\"system\",\"content\":\"{}\"}}", "s".repeat(400));
    assert_eq!(parse_transcript(&line), Vec::<String>::new());
}

#[test]
fn a_line_that_is_not_json_is_skipped_and_the_rest_is_read() {
    let transcript = "{\"role\":\"user\",\"content\":\"Please summarise the meeting notes.\"}\n\
                      this is not json at all\n\
                      {\"role\":\"assistant\",\"content\":\"Here is the summary of the meeting.\"}\n";
    assert_eq!(
        parse_transcript(transcript),
        vec![
            "[user] Please summarise the meeting notes.\n\n[assistant] Here is the summary of the meeting."
                .to_string()
        ]
    );
}

#[test]
fn simple_and_enveloped_records_are_read_alike() {
    let transcript = "\n\
        {\"role\":\"user\",\"content\":\"Please summarise the meeting notes.\"}\r\n\
        \n\
        {\"role\":\"system\",\"content\":\"You are a helpful assistant with rules.\"}\n\
        {\"role\":\"user\",\"content\":\"short\"}\n\
          {\"type\":\"message\",\"message\":{\"role\":\"assistant\",\"content\":[{\"type\":\"text\",\"text\":\"Here is the summary\"},{\"type\":\"image\",\"url\":\"x\"},{\"type\":\"text\",\"text\":\"of the meeting.\"}]}}  ";
    assert_eq!(
        parse_transcript(transcript),
        vec![
            "[user] Please summarise the meeting notes.\n\n[assistant] Here is the summary of the meeting."
                .to_string()
        ]
    );
}

#[test]
fn an_envelope_without_a_message_is_read_as_a_simple_record() {
    let line = "{\"type\":\"message\",\"role\":\"user\",\"content\":\"A long enough content string.\"}";
    assert_eq!(
        parse_transcript(line),
        vec!["[user] A long enough content string.".to_string()]
    );
}

#[test]
fn an_envelope_around_something_else_gives_nothing() {
    let line = "{\"type\":\"message\",\"message\":\"text\",\"role\":\"user\",\"content\":\"A long enough content string.\"}";
    assert_eq!(parse_transcript(line), Vec::<String>::new());
}

#[test]
fn a_record_of_another_type_is_read_as_a_simple_record() {
    let line = "{\"type\":\"event\",\"message\":{\"role\":\"system\",\"content\":\"x\"},\"role\":\"assistant\",\"content\":\"A long enough content string.\"}";
    assert_eq!(
        parse_transcript(line),
        vec!["[assistant] A long enough content string.".to_string()]
    );
}

#[test]
fn content_of_twenty_characters_is_excluded_and_of_twenty_one_kept() {
    let twenty = format!("{{\"role\":\"user\",\"content\":\"{}\"}}", "c".repeat(20));
    let twenty_one = format!("{{\"role\":\"user\",\"content\":\"{}\"}}", "c".repeat(21));
    assert_eq!(parse_transcript(&twenty), Vec::<String>::new());
    assert_eq!(parse_transcript(&twenty_one), vec![format!("[user] {}", "c".repeat(21))]);
}

#[test]
fn content_that_is_neither_text_nor_segments_is_empty() {
    assert_eq!(
        parse_transcript("{\"role\":\"user\",\"content\":12345678901234567890123}"),
        Vec::<String>::new()
    );
    assert_eq!(
        parse_transcript("{\"role\":\"user\",\"content\":{\"text\":\"A long enough content string.\"}}"),
        Vec::<String>::new()
    );
    assert_eq!(parse_transcript("{\"role\":\"user\"}"), Vec::<String>::new());
    assert_eq!(parse_transcript("[1, 2, 3]"), Vec::<String>::new());
}

#[test]
fn an_empty_transcript_has_no_chunks() {
    assert_eq!(parse_transcript(""), Vec::<String>::new());
    assert_eq!(parse_transcript("\n\n  \n"), Vec::<String>::new());
}

#[test]
fn a_long_transcript_is_chunked_at_the_transcript_limit() {
    let first = "x".repeat(600);
    let second = "y".repeat(600);
    let third = "z".repeat(300);
    let transcript = format!(
        "{{\"role\":\"user\",\"content\":\"{}\"}}\n{{\"role\":\"assistant\",\"content\":\"{}\"}}\n{{\"role\":\"user\",\"content\":\"{}\"}}",
        first, second, third
    );
    // 607 + 2 + 612 is over the limit; 612 + 2 + 307 is under it.
    assert_eq!(
        parse_transcript(&transcript),
        vec![
            format!("[user] {}", first),
            format!("[assistant] {}\n\n[user] {}", second, third)
        ]
    );
}

#[test]
fn a_message_renders_as_role_and_content() {
    let entry = object(vec![
        ("role", text("assistant")),
        ("content", text("twenty-one characters")),
    ]);
    assert_eq!(
        render_message(&entry),
        Some("[assistant] twenty-one characters".to_string())
    );
}

#[test]
fn a_message_of_another_role_or_without_one_renders_as_nothing() {
    let long = "a content that is long enough";
    assert_eq!(render_message(&object(vec![("role", text("tool")), ("content", text(long))])), None);
    assert_eq!(render_message(&object(vec![("role", text("User")), ("content", text(long))])), None);
    assert_eq!(render_message(&object(vec![("role", Json::Number), ("content", text(long))])), None);
    assert_eq!(render_message(&object(vec![("content", text(long))])), None);
    assert_eq!(render_message(&text(long)), None);
    assert_eq!(render_message(&Json::Null), None);
}

#[test]
fn text_segments_are_joined_by_single_spaces() {
    let segments = Json::Array(vec![
        object(vec![("type", text("text")), ("text", text("one"))]),
        object(vec![("type", text("tool_use")), ("text", text("skipped"))]),
        object(vec![("type", text("text")), ("text", Json::Bool(true))]),
        object(vec![("type", text("text"))]),
        text("bare"),
        object(vec![("type", text("text")), ("text", text(""))]),
        object(vec![("type", text("text")), ("text", text("two"))]),
    ]);
    let record = object(vec![("content", segments)]);
    assert_eq!(content_chars(&record), "one  two".chars().collect::<Vec<char>>());
    let none = object(vec![("content", Json::Array(Vec::new()))]);
    assert_eq!(content_chars(&none), Vec::<char>::new());
}

#[test]
fn the_enveloped_message_takes_role_and_content_from_inside() {
    let inner = object(vec![
        ("role", text("user")),
        ("content", text("the inner content is what counts")),
    ]);
    let entry = object(vec![
        ("type", text("message")),
        ("role", text("system")),
        ("content", text("the outer content does not count")),
        ("message", inner),
    ]);
    assert_eq!(
        render_message(&entry),
        Some("[user] the inner content is what counts".to_string())
    );
}

#[test]
fn json_members_are_found_by_key() {
    let value = object(vec![("role", text("user")), ("n", Json::Number), ("role", text("late"))]);
    assert_eq!(value.get_str("role"), Some(&"user".to_string()));
    assert_eq!(value.get_str("n"), None);
    assert_eq!(value.get_str("missing"), None);
    assert_eq!(format!("{:?}", value.get("n")), format!("{:?}", Some(&Json::Number)));
    assert_eq!(format!("{:?}", value.get("missing")), "None");
    assert_eq!(format!("{:?}", text("x").get("role")), "None");
    assert_eq!(format!("{:?}", Json::Array(vec![text("role")]).get("role")), "None");
    assert_eq!(text("x").as_str(), Some(&"x".to_string()));
    assert_eq!(Json::Null.as_str(), None);
}

#[test]
fn every_kind_of_json_value_is_read() {
    // Numbers, booleans, null, nested lists and objects all parse; only the
    // text segments count.
    let line = "{\"role\":\"user\",\"extra\":[1,2.5,true,null,{\"k\":[]}],\"content\":[{\"type\":\"text\",\"text\":\"escaped \\\"quote\\\" and \\u00e9 survive\"}]}";
    assert_eq!(
        parse_transcript(line),
        vec!["[user] escaped \"quote\" and é survive".to_string()]
    );
}

#[test]
fn of_two_members_of_one_key_the_parser_keeps_the_last() {
    let line = "{\"role\":\"system\",\"role\":\"user\",\"content\":\"A long enough content string.\"}";
    assert_eq!(
        parse_transcript(line),
        vec!["[user] A long enough content string.".to_string()]
    );
}

#[test]
fn the_chunker_also_offers_the_transcript_reader() {
    let line = "{\"role\":\"user\",\"content\":\"A long enough content string.\"}";
    assert_eq!(agent_memory::chunk::parse_transcript(line), parse_transcript(line));
}
