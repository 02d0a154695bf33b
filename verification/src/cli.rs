//! The command line: which flags are set, and which provider the session talks to.
use vstd::prelude::*;
use crate::text::{equals_lower, equals_lower_str, str_eq, views};

verus! {

/// The switches read from the command line.
#[derive(Debug, Clone, Copy, PartialEq, Eq, Structural)]
pub struct CliFlags {
    /// `--debug`: show each chunk before it is decoded.
    pub debug: bool,
    /// `--debug_message`: show the messages before each request.
    pub debug_message: bool,
    /// `o` or `O`: use OpenAI instead of Mistral.
    pub use_openai: bool,
    /// `r` or `R`: continue the last conversation.
    pub restore: bool,
}

/// Whether some argument is exactly `a`.
pub open spec fn has_arg(args: Seq<Seq<char>>, a: Seq<char>) -> bool {
    exists|i: int| 0 <= i < args.len() && #[trigger] args[i] == a
}

/// Whether some argument is `a` once ASCII capitals are read as lower case
/// (for the one-letter switches used here, `arg.to_lowercase() == a`).
pub open spec fn has_arg_lower(args: Seq<Seq<char>>, a: Seq<char>) -> bool {
    exists|i: int| 0 <= i < args.len() && equals_lower(#[trigger] args[i], a)
}

/// The switches that the arguments (the program name among them) set.
pub open spec fn flags_of(args: Seq<Seq<char>>) -> CliFlags {
    CliFlags {
        debug: has_arg(args, "--debug"@),
        debug_message: has_arg(args, "--debug_message"@),
        use_openai: has_arg_lower(args, "o"@),
        restore: has_arg_lower(args, "r"@),
    }
}

fn any_arg(args: &Vec<String>, a: &str, fold_case: bool) -> (r: bool)
    ensures
        !fold_case ==> r == has_arg(views(args@), a@),
        fold_case ==> r == has_arg_lower(views(args@), a@),
{
    let n = args.len();
    let mut i: usize = 0;
    while i < n
        invariant
            i <= n == args.len(),
            forall|j: int| 0 <= j < i ==> #[trigger] views(args@)[j] != a@,
            fold_case ==> forall|j: int| 0 <= j < i ==> !equals_lower(#[trigger] views(args@)[j], a@),
        decreases n - i,
    {
        let arg = args[i].as_str();
        assert(views(args@)[i as int] == arg@);
        let hit = if fold_case {
            equals_lower_str(arg, a)
        } else {
            str_eq(arg, a)
        };
        if hit {
            return true;
        }
        if fold_case {
            assert(views(args@)[i as int] != a@) by {
                if views(args@)[i as int] == a@ {
                    assert(equals_lower(a@, a@));
                }
            }
        }
        i = i + 1;
    }
    false
}

/// Reads the switches from the command line arguments (the program name included).
pub fn parse_flags(args: &Vec<String>) -> (f: CliFlags)
    ensures
        f == flags_of(views(args@)),
{
    CliFlags {
        debug: any_arg(args, "--debug", false),
        debug_message: any_arg(args, "--debug_message", false),
        use_openai: any_arg(args, "o", true),
        restore: any_arg(args, "r", true),
    }
}

/// The hosted model services that the client talks to.
#[derive(Debug, Clone, Copy, PartialEq, Eq, Structural)]
pub enum Provider {
    OpenAi,
    Mistral,
}

impl Provider {
    /// OpenAI when the `o` switch is given, Mistral otherwise.
    pub fn select(use_openai: bool) -> (p: Provider)
        ensures
            p == (if use_openai {
                Provider::OpenAi
            } else {
                Provider::Mistral
            }),
    {
        if use_openai {
            Provider::OpenAi
        } else {
            Provider::Mistral
        }
    }

    /// The chat completions endpoint.
    pub fn url(&self) -> (u: &'static str)
        ensures
            u@ == (match *self {
                Provider::OpenAi => "https://api.openai.com/v1/chat/completions"@,
                Provider::Mistral => "https://api.mistral.ai/v1/chat/completions"@,
            }),
    {
        match self {
            Provider::OpenAi => "https://api.openai.com/v1/chat/completions",
            Provider::Mistral => "https://api.mistral.ai/v1/chat/completions",
        }
    }

    /// The environment variable that holds the API key.
    pub fn key_variable(&self) -> (v: &'static str)
        ensures
            v@ == (match *self {
                Provider::OpenAi => "OPENAI_API_KEY"@,
                Provider::Mistral => "MISTRAL_API_KEY"@,
            }),
    {
        match self {
            Provider::OpenAi => "OPENAI_API_KEY",
            Provider::Mistral => "MISTRAL_API_KEY",
        }
    }

    /// The message given when the API key is not set.
    pub fn missing_key_message(&self) -> (m: &'static str)
        ensures
            m@ == (match *self {
                Provider::OpenAi => "OPENAI_API_KEY environment variable not set"@,
                Provider::Mistral => "MISTRAL_API_KEY environment variable not set"@,
            }),
    {
        match self {
            Provider::OpenAi => "OPENAI_API_KEY environment variable not set",
            Provider::Mistral => "MISTRAL_API_KEY environment variable not set",
        }
    }

    /// The file of model configurations and system prompts.
    pub fn prompts_file(&self) -> (f: &'static str)
        ensures
            f@ == (match *self {
                Provider::OpenAi => "openai_prompts.toml"@,
                Provider::Mistral => "mistral_prompts.toml"@,
            }),
    {
        match self {
            Provider::OpenAi => "openai_prompts.toml",
            Provider::Mistral => "mistral_prompts.toml",
        }
    }

    /// The line that tells the user which provider is in use.
    pub fn banner(&self) -> (b: &'static str)
        ensures
            b@ == (match *self {
                Provider::OpenAi => "Using OpenAI"@,
                Provider::Mistral => "Using Mistral, use -- O for OpenAI"@,
            }),
    {
        match self {
            Provider::OpenAi => "Using OpenAI",
            Provider::Mistral => "Using Mistral, use -- O for OpenAI",
        }
    }
}

} // verus!
