//! The settings of a run, read from the `config` member of the pipeline document.

use crate::state::document::{Document, DocumentModel};
use vstd::prelude::*;

verus! {

/// Where the checkpoint and the templates are kept.
#[derive(Debug)]
pub struct Config {
    pub state_file: String,
    pub template_file: String,
}

/// The text of the member `name` of the member `config` of the document, or
/// `fallback` where the document has no such text.
pub open spec fn setting(pipeline: DocumentModel, name: Seq<char>, fallback: Seq<char>) -> Seq<
    char,
> {
    match pipeline.member("config"@) {
        Some(config) => match config.member(name) {
            Some(DocumentModel::String(text)) => text,
            _ => fallback,
        },
        None => fallback,
    }
}

/// The text of the member `name` of the member `config` of the document, or
/// `fallback` where the document has no such text.
pub fn read_setting(pipeline: &Document, name: &str, fallback: &str) -> (text: String)
    ensures
        text@ == setting(pipeline@, name@, fallback@),
{
    match pipeline.get("config") {
        Some(config) => match config.get(name) {
            Some(member) => match member.as_str() {
                Some(text) => String::from_str(text),
                None => String::from_str(fallback),
            },
            None => String::from_str(fallback),
        },
        None => String::from_str(fallback),
    }
}

impl Config {
    /// The settings that the pipeline document gives, each with its default
    /// where the document is silent: `state.json` and `template.json`.
    pub fn from(value: &Document) -> (config: Config)
        ensures
            config.state_file@ == setting(value@, "state_file"@, "state.json"@),
            config.template_file@ == setting(value@, "template_file"@, "template.json"@),
    {
        Config {
            state_file: read_setting(value, "state_file", "state.json"),
            template_file: read_setting(value, "template_file", "template.json"),
        }
    }
}

} // verus!
