use agent_memory::config::config_path;
use agent_memory::config::default_model;
use agent_memory::config::default_ollama_url;
use agent_memory::config::default_schema;
use agent_memory::config::Config;
use agent_memory::config::Source;
use agent_memory::config::DEFAULT_CONFIG_PATH;

#[test]
fn the_defaults_are_the_documented_ones() {
    assert_eq!(default_ollama_url(), "http://localhost:11434/api/embeddings");
    assert_eq!(default_model(), "nomic-embed-text");
    assert_eq!(default_schema(), "agent_memory");
    assert_eq!(DEFAULT_CONFIG_PATH, "config.yaml");
}

#[test]
fn the_explicit_path_wins_over_the_environment() {
    assert_eq!(config_path(Some("a.yaml"), Some("b.yaml")), "a.yaml");
    assert_eq!(config_path(Some("a.yaml"), None), "a.yaml");
    assert_eq!(config_path(None, Some("b.yaml")), "b.yaml");
    assert_eq!(config_path(None, None), "config.yaml");
    assert_eq!(config_path(Some(""), Some("b.yaml")), "");
}

#[test]
fn missing_settings_take_their_defaults() {
    let config =
        Config::with_defaults("me".to_string(), "postgres://db".to_string(), None, None, None, None);
    assert_eq!(
        config,
        Config {
            agent_id: "me".to_string(),
            db_url: "postgres://db".to_string(),
            ollama_url: "http://localhost:11434/api/embeddings".to_string(),
            model: "nomic-embed-text".to_string(),
            schema: "agent_memory".to_string(),
            sources: Vec::new(),
        }
    );
}

#[test]
fn given_settings_are_kept() {
    let source = Source {
        path: "notes".to_string(),
        source_type: "markdown_dir".to_string(),
        source_label: Some("journal".to_string()),
    };
    let config = Config::with_defaults(
        "me".to_string(),
        "postgres://db".to_string(),
        Some("http://embed".to_string()),
        Some("tiny".to_string()),
        Some("mem".to_string()),
        Some(vec![source.clone()]),
    );
    assert_eq!(
        config,
        Config {
            agent_id: "me".to_string(),
            db_url: "postgres://db".to_string(),
            ollama_url: "http://embed".to_string(),
            model: "tiny".to_string(),
            schema: "mem".to_string(),
            sources: vec![source],
        }
    );
}
