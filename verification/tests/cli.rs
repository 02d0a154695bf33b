use tstream::cli::{parse_flags, CliFlags, Provider};

fn args(xs: &[&str]) -> Vec<String> {
    xs.iter().map(|x| x.to_string()).collect()
}

#[test]
fn flags_from_arguments() {
    assert_eq!(
        parse_flags(&args(&["tstream"])),
        CliFlags { debug: false, debug_message: false, use_openai: false, restore: false }
    );
    assert_eq!(
        parse_flags(&args(&["tstream", "O", "--debug", "r"])),
        CliFlags { debug: true, debug_message: false, use_openai: true, restore: true }
    );
    assert_eq!(
        parse_flags(&args(&["tstream", "--debug_message", "R", "oo", "--DEBUG"])),
        CliFlags { debug: false, debug_message: true, use_openai: false, restore: true }
    );
}

#[test]
fn provider_settings() {
    let o = Provider::select(true);
    assert_eq!(o, Provider::OpenAi);
    assert_eq!(o.url(), "https://api.openai.com/v1/chat/completions");
    assert_eq!(o.key_variable(), "OPENAI_API_KEY");
    assert_eq!(o.prompts_file(), "openai_prompts.toml");
    assert_eq!(o.banner(), "Using OpenAI");
    let m = Provider::select(false);
    assert_eq!(m.url(), "https://api.mistral.ai/v1/chat/completions");
    assert_eq!(m.key_variable(), "MISTRAL_API_KEY");
    assert_eq!(m.missing_key_message(), "MISTRAL_API_KEY environment variable not set");
    assert_eq!(m.prompts_file(), "mistral_prompts.toml");
    assert_eq!(m.banner(), "Using Mistral, use -- O for OpenAI");
}
