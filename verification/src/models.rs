//! The records exchanged with the model provider and read from the prompts file.
use vstd::prelude::*;

verus! {

/// The text increment carried by one streamed completion choice.
#[derive(Debug)]
pub struct Delta {
    pub content: String,
}

/// One choice of a streamed completion chunk.
#[derive(Debug)]
pub struct Choices {
    pub delta: Delta,
    pub finish_reason: Option<String>,
}

/// One server-sent chunk of a streamed completion.
#[derive(Debug)]
pub struct Chunk {
    pub choices: Vec<Choices>,
}

/// One message of a chat conversation.
#[derive(Debug)]
pub struct Message {
    pub role: String,
    pub content: String,
}

/// A conversation entry as it is written out.
#[derive(Debug)]
pub struct Conversation {
    pub role: String,
    pub content: String,
}

/// The content of a prompts file: the models on offer.
#[derive(Debug)]
pub struct Prompts {
    pub options: Vec<ModelConfig>,
}

/// One model of the prompts file with the system prompts it can be used with.
#[derive(Debug)]
pub struct ModelConfig {
    pub model: Option<String>,
    pub long: Option<String>,
    pub code: Option<String>,
    pub standard: Option<String>,
}

/// The characters of an optional string.
pub open spec fn opt_view(o: Option<String>) -> Option<Seq<char>> {
    match o {
        Some(s) => Some(s@),
        None => None,
    }
}

/// A copy of an optional string.
pub fn copy_opt(o: &Option<String>) -> (r: Option<String>)
    ensures
        opt_view(r) == opt_view(*o),
{
    match o {
        Some(s) => Some(s.clone()),
        None => None,
    }
}

impl Message {
    /// A message with the given role and content.
    pub fn new(role: &str, content: &str) -> (m: Message)
        ensures
            m.role@ == role@,
            m.content@ == content@,
    {
        Message { role: role.to_owned(), content: content.to_owned() }
    }
}

} // verus!
