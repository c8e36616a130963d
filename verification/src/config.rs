//! Settings of one agent's memory: where its store and its embedding service
//! live, and which files feed it.

use vstd::prelude::*;

verus! {

/// One configured place to read notes or transcripts from.
#[derive(Debug, Clone, PartialEq, Eq)]
pub struct Source {
    /// A file, or a directory whose entries are read one level deep.
    pub path: String,
    /// `"single_file"`, `"markdown_dir"` or `"transcript_dir"`.
    pub source_type: String,
    /// Overrides the label that chunks of this source carry.
    pub source_label: Option<String>,
}

/// The settings of one agent.
#[derive(Debug, Clone, PartialEq, Eq)]
pub struct Config {
    pub agent_id: String,
    pub db_url: String,
    pub ollama_url: String,
    pub model: String,
    pub schema: String,
    pub sources: Vec<Source>,
}

/// Where the configuration is read from when nothing else says so.
pub const DEFAULT_CONFIG_PATH: &'static str = "config.yaml";

/// The path of the configuration: the one given explicitly, else the one
/// that the environment names, else `DEFAULT_CONFIG_PATH`.
pub open spec fn chosen_path(explicit: Option<Seq<char>>, from_env: Option<Seq<char>>) -> Seq<char> {
    match explicit {
        Some(path) => path,
        None => match from_env {
            Some(path) => path,
            None => DEFAULT_CONFIG_PATH@,
        },
    }
}

/// Chooses the path that the configuration is read from.
pub fn config_path(explicit: Option<&str>, from_env: Option<&str>) -> (path: String)
    ensures
        path@ == chosen_path(
            match explicit {
                Some(p) => Some(p@),
                None => None,
            },
            match from_env {
                Some(p) => Some(p@),
                None => None,
            },
        ),
{
    match explicit {
        Some(p) => p.to_owned(),
        None => match from_env {
            Some(p) => p.to_owned(),
            None => DEFAULT_CONFIG_PATH.to_owned(),
        },
    }
}

impl Config {
    /// The settings of an agent, with the default in place of each setting
    /// that is not given: the default endpoint, model and schema, and no
    /// sources.
    pub fn with_defaults(
        agent_id: String,
        db_url: String,
        ollama_url: Option<String>,
        model: Option<String>,
        schema: Option<String>,
        sources: Option<Vec<Source>>,
    ) -> (config: Config)
        ensures
            config.agent_id == agent_id,
            config.db_url == db_url,
            config.ollama_url@ == match ollama_url {
                Some(url) => url@,
                None => "http://localhost:11434/api/embeddings"@,
            },
            config.model@ == match model {
                Some(name) => name@,
                None => "nomic-embed-text"@,
            },
            config.schema@ == match schema {
                Some(name) => name@,
                None => "agent_memory"@,
            },
            config.sources@ == match sources {
                Some(list) => list@,
                None => Seq::<Source>::empty(),
            },
    {
        Config {
            agent_id: agent_id,
            db_url: db_url,
            ollama_url: match ollama_url {
                Some(url) => url,
                None => default_ollama_url(),
            },
            model: match model {
                Some(name) => name,
                None => default_model(),
            },
            schema: match schema {
                Some(name) => name,
                None => default_schema(),
            },
            sources: match sources {
                Some(list) => list,
                None => Vec::new(),
            },
        }
    }
}

/// The embedding endpoint used when none is configured.
pub fn default_ollama_url() -> (url: String)
    ensures
        url@ == "http://localhost:11434/api/embeddings"@,
{
    "http://localhost:11434/api/embeddings".to_owned()
}

/// The embedding model used when none is configured.
pub fn default_model() -> (model: String)
    ensures
        model@ == "nomic-embed-text"@,
{
    "nomic-embed-text".to_owned()
}

/// The database schema used when none is configured.
pub fn default_schema() -> (schema: String)
    ensures
        schema@ == "agent_memory"@,
{
    "agent_memory".to_owned()
}

} // verus!
