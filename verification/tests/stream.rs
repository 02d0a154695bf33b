use tstream::stream::{chunk_content, payloads_of_bytes, stream_payloads};
use tstream::{Choices, Chunk, Delta};

#[test]
fn payloads_skip_empty_and_done() {
    let text = "data: {\"a\":1}\n\ndata: {\"b\":2}\n\ndata: [DONE]\n\n";
    assert_eq!(stream_payloads(text), vec!["{\"a\":1}\n\n", "{\"b\":2}\n\n"]);
    assert_eq!(stream_payloads(""), Vec::<String>::new());
    assert_eq!(stream_payloads("   \n"), Vec::<String>::new());
    assert_eq!(stream_payloads("partial"), vec!["partial"]);
}

#[test]
fn payloads_from_bytes() {
    let bytes = "data: {\"x\":\"é\"}\n\ndata: [DONE]".as_bytes();
    assert_eq!(payloads_of_bytes(bytes), vec!["{\"x\":\"é\"}\n\n"]);
    let bad = [b'd', b'a', b't', b'a', b':', b' ', 0xff, b'z'];
    assert_eq!(payloads_of_bytes(&bad), vec!["\u{fffd}z"]);
}

#[test]
fn chunk_text_is_first_choice() {
    let c = Chunk {
        choices: vec![
            Choices { delta: Delta { content: "Hel".to_string() }, finish_reason: None },
            Choices { delta: Delta { content: "other".to_string() }, finish_reason: Some("stop".to_string()) },
        ],
    };
    assert_eq!(chunk_content(&c), Some("Hel".to_string()));
    assert_eq!(chunk_content(&Chunk { choices: vec![] }), None);
}
