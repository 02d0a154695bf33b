use tstream::session::{
    classify_input, conversation_markdown, count_tokens, end_marker, extract_title, join_multiline,
    markdown_filename, multiline_marker, sanitize_title, ChatSession, InputAction, TurnStart,
};
use tstream::Message;

fn msg(r: &str, c: &str) -> Message {
    Message { role: r.to_string(), content: c.to_string() }
}

#[test]
fn input_actions() {
    assert_eq!(classify_input("exit"), InputAction::Finish);
    assert_eq!(classify_input("exit nosave"), InputAction::Abandon);
    assert_eq!(classify_input("exit "), InputAction::Send);
    assert_eq!(classify_input("hello"), InputAction::Send);
}

#[test]
fn session_records_input_and_replies() {
    let mut sess = ChatSession::new("be brief");
    sess.record_input("hi there");
    sess.record_reply("hello");
    assert!(!sess.about_to_quit);
    sess.record_input("exit");
    assert!(sess.about_to_quit);
    sess.record_input("ignored once ending");
    let got: Vec<(String, String)> =
        sess.messages.iter().map(|m| (m.role.clone(), m.content.clone())).collect();
    let want: Vec<(String, String)> = vec![
        ("system", "be brief"),
        ("user", "hi there"),
        ("assistant", "hello"),
        ("user", "give this conversation a short name, reply only with: title='name'"),
    ]
    .into_iter()
    .map(|(a, b)| (a.to_string(), b.to_string()))
    .collect();
    assert_eq!(got, want);
}

#[test]
fn restored_session_keeps_messages() {
    let sess = ChatSession::restored(vec![msg("system", "x"), msg("user", "y")]);
    assert_eq!(sess.messages.len(), 2);
    assert_eq!(sess.messages[1].content, "y");
    assert!(!sess.about_to_quit);
}

#[test]
fn multiline_input() {
    assert!(multiline_marker("  #ML \n"));
    assert!(!multiline_marker("#ml"));
    assert!(end_marker("END\n"));
    assert!(!end_marker("the END"));
    let lines = vec!["first line".to_string(), "  second  ".to_string(), "".to_string()];
    assert_eq!(join_multiline(&lines), "first line\n  second");
    assert_eq!(join_multiline(&Vec::new()), "");
}

#[test]
fn transcript_lines() {
    let ms = vec![msg("system", "S"), msg("user", "U\nmore")];
    assert_eq!(conversation_markdown(&ms), "- **system**: S\n- **user**: U\nmore");
    assert_eq!(conversation_markdown(&Vec::new()), "");
}

#[test]
fn token_counts() {
    let ms = vec![msg("system", "You are  helpful"), msg("user", ""), msg("assistant", "a\tb c")];
    assert_eq!(count_tokens(&ms), 6);
    assert_eq!(count_tokens(&Vec::new()), 0);
}

#[test]
fn title_extraction_and_file_name() {
    let ms = vec![
        msg("user", "title=not from user"),
        msg("Assistant", "TITLE= Rust 'tips' and tricks \nsecond line"),
        msg("assistant", "title=later"),
    ];
    assert_eq!(extract_title(&ms), "Rust 'tips' and tricks \nsecond line");
    assert_eq!(
        markdown_filename("conversations/2024-05-01_1200", &ms),
        "conversations/2024-05-01_1200--Rust_tips_and_tricks_.md"
    );
    let none = vec![msg("assistant", "no title here")];
    assert_eq!(extract_title(&none), "");
    assert_eq!(markdown_filename("c/base", &none), "c/base.md");
    let empty_title = vec![msg("assistant", "title=   ")];
    assert_eq!(markdown_filename("c/base", &empty_title), "c/base.md");
}

#[test]
fn title_sanitizing() {
    assert_eq!(sanitize_title("a b'c\nd e"), "a_bc");
    assert_eq!(sanitize_title("'''"), "");
    assert_eq!(sanitize_title(""), "");
}

#[test]
fn turns_save_history_before_the_title_request() {
    let mut sess = ChatSession::new("sys");
    assert!(matches!(sess.begin_turn("hello"), TurnStart::Send));
    sess.record_reply("hi");
    assert_eq!(sess.finish_turn("c/base"), None);
    match sess.begin_turn("exit") {
        TurnStart::SaveHistoryAndSend(h) => {
            let roles: Vec<&str> = h.iter().map(|m| m.role.as_str()).collect();
            assert_eq!(roles, vec!["system", "user", "assistant"]);
        }
        _ => panic!("exit must save the history"),
    }
    assert_eq!(sess.messages.len(), 4);
    sess.record_reply("title='Greeting chat'");
    let (name, text) = sess.finish_turn("c/base").unwrap();
    assert_eq!(name, "c/base--Greeting_chat.md");
    assert!(text.starts_with("- **system**: sys\n- **user**: hello\n"));
    let mut other = ChatSession::new("sys");
    assert!(matches!(other.begin_turn("exit nosave"), TurnStart::Stop));
    assert_eq!(other.finish_turn("c/base"), None);
}
