//! Reading the streamed reply: the server-sent text is cut at each `data: ` marker,
//! and each remaining piece is one JSON chunk whose first choice carries text.
use vstd::prelude::*;
use crate::models::{opt_view, Chunk};
use crate::text::{split_on, split_str, str_eq, trim, trim_str, views};

verus! {

/// Whether a piece of the stream is a chunk to decode: it holds more than
/// whitespace and is not the `[DONE]` marker.
pub open spec fn is_payload(p: Seq<char>) -> bool {
    trim(p).len() > 0 && trim(p) != "[DONE]"@
}

/// The pieces of `ps` that are payloads, in order.
pub open spec fn keep_payloads(ps: Seq<Seq<char>>) -> Seq<Seq<char>>
    decreases ps.len(),
{
    if ps.len() == 0 {
        Seq::empty()
    } else if is_payload(ps.last()) {
        keep_payloads(ps.drop_last()).push(ps.last())
    } else {
        keep_payloads(ps.drop_last())
    }
}

/// The chunks to decode in a piece of server-sent text.
pub open spec fn payloads(text: Seq<char>) -> Seq<Seq<char>> {
    keep_payloads(split_on(text, "data: "@))
}

/// Payloads are kept in order and none is lost: keeping distributes over
/// concatenation, a single piece is kept exactly when it holds more than whitespace
/// and is not `[DONE]`, and every kept piece is such a piece.
pub proof fn lemma_keep_payloads(a: Seq<Seq<char>>, b: Seq<Seq<char>>, p: Seq<char>)
    ensures
        keep_payloads(a + b) == keep_payloads(a) + keep_payloads(b),
        keep_payloads(seq![p]) == (if trim(p).len() > 0 && trim(p) != "[DONE]"@ {
            seq![p]
        } else {
            Seq::<Seq<char>>::empty()
        }),
        forall|i: int|
            0 <= i < keep_payloads(a).len() ==> trim(#[trigger] keep_payloads(a)[i]).len() > 0
                && trim(keep_payloads(a)[i]) != "[DONE]"@,
    decreases b.len(),
{
    let e: Seq<Seq<char>> = Seq::empty();
    assert(seq![p].drop_last() =~= e);
    assert(e.push(p) =~= seq![p]);
    assert(seq![p].last() == p);
    assert(keep_payloads(e) == e);
    lemma_kept_are_payloads(a);
    if b.len() == 0 {
        assert(a + b =~= a);
        assert(keep_payloads(a) + keep_payloads(b) =~= keep_payloads(a));
    } else {
        lemma_keep_payloads(a, b.drop_last(), p);
        assert((a + b).drop_last() =~= a + b.drop_last());
        assert((a + b).last() == b.last());
        let x = keep_payloads(a);
        let y = keep_payloads(b.drop_last());
        assert((x + y).push(b.last()) =~= x + y.push(b.last()));
    }
}

proof fn lemma_kept_are_payloads(a: Seq<Seq<char>>)
    ensures
        forall|i: int|
            0 <= i < keep_payloads(a).len() ==> trim(#[trigger] keep_payloads(a)[i]).len() > 0
                && trim(keep_payloads(a)[i]) != "[DONE]"@,
    decreases a.len(),
{
    if a.len() > 0 {
        lemma_kept_are_payloads(a.drop_last());
        let x = keep_payloads(a.drop_last());
        assert forall|i: int| 0 <= i < keep_payloads(a).len() implies trim(
            #[trigger] keep_payloads(a)[i],
        ).len() > 0 && trim(keep_payloads(a)[i]) != "[DONE]"@ by {
            if i < x.len() {
                assert(keep_payloads(a)[i] == x[i]);
            }
        }
    }
}

/// The chunks to decode in a piece of server-sent text, untrimmed, in order.
pub fn stream_payloads(text: &str) -> (r: Vec<String>)
    ensures
        views(r@) == payloads(text@),
{
    proof {
        reveal_strlit("data: ");
    }
    let pieces = split_str(text, "data: ");
    let mut out: Vec<String> = Vec::new();
    let n = pieces.len();
    let mut i: usize = 0;
    while i < n
        invariant
            i <= n == pieces.len(),
            views(pieces@) == split_on(text@, "data: "@),
            views(out@) == keep_payloads(views(pieces@).take(i as int)),
        decreases n - i,
    {
        let p = &pieces[i];
        let t = trim_str(p.as_str());
        proof {
            let vs = views(pieces@);
            assert(vs.take(i + 1).drop_last() =~= vs.take(i as int));
            assert(vs.take(i + 1).last() == p@);
        }
        if t.unicode_len() > 0 && !str_eq(t.as_str(), "[DONE]") {
            out.push(p.clone());
            assert(views(out@) =~= keep_payloads(views(pieces@).take(i + 1)));
        }
        i = i + 1;
    }
    assert(views(pieces@).take(n as int) =~= views(pieces@));
    out
}

/// The text that a chunk adds to the reply: that of its first choice, if any.
pub open spec fn chunk_text(c: Chunk) -> Option<Seq<char>> {
    if c.choices.len() > 0 {
        Some(c.choices[0].delta.content@)
    } else {
        None
    }
}

/// The text that a decoded chunk adds to the reply.
pub fn chunk_content(chunk: &Chunk) -> (r: Option<String>)
    ensures
        opt_view(r) == chunk_text(*chunk),
{
    if chunk.choices.len() > 0 {
        Some(chunk.choices[0].delta.content.clone())
    } else {
        None
    }
}

/// Every chunk with a choice adds its first choice's text, whatever that text is
/// (blank text included); only a chunk without choices adds nothing.
pub proof fn lemma_chunk_text(c: Chunk)
    ensures
        chunk_text(c) is None <==> c.choices.len() == 0,
        c.choices.len() > 0 ==> chunk_text(c) == Some(c.choices[0].delta.content@),
{
}

/// What `String::from_utf8_lossy` makes of a byte sequence.
pub uninterp spec fn lossy_text(bytes: Seq<u8>) -> Seq<char>;

/// Decodes bytes with `String::from_utf8_lossy` of std; the contract claims the result
/// is a function of the bytes, and, as its documentation states, the decoded text when
/// the bytes are valid UTF-8. What replaces invalid sequences is left unstated.
#[verifier::external_body]
fn decode_lossy(bytes: &[u8]) -> (s: String)
    ensures
        s@ == lossy_text(bytes@),
        vstd::utf8::valid_utf8(bytes@) ==> s@ == vstd::utf8::decode_utf8(bytes@),
{
    String::from_utf8_lossy(bytes).into_owned()
}

/// The chunks to decode in a block of bytes received from the stream.
pub fn payloads_of_bytes(bytes: &[u8]) -> (r: Vec<String>)
    ensures
        views(r@) == payloads(lossy_text(bytes@)),
        vstd::utf8::valid_utf8(bytes@) ==> views(r@) == payloads(vstd::utf8::decode_utf8(bytes@)),
{
    let text = decode_lossy(bytes);
    stream_payloads(text.as_str())
}

} // verus!
