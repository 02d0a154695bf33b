//! Verified core of a terminal chat client for hosted language models: the model
//! menu, the chat session, the streamed reply, the transcript and its file name.
pub mod cli;
pub mod files;
pub mod menu;
pub mod models;
pub mod number;
pub mod session;
pub mod stream;
pub mod text;

pub use files::history_filename;
pub use models::{Choices, Chunk, Conversation, Delta, Message, ModelConfig, Prompts};
pub use text::tokenize;
