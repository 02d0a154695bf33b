//! The chat session: what the user's input does to the conversation, the token
//! count shown before each prompt, and the transcript and file name written at the end.
use vstd::prelude::*;
use crate::models::Message;
use crate::text::{
    chars_of, equals_lower, equals_lower_str, starts_with_lower, starts_with_lower_str,
    str_eq, string_of, sub_chars, tokenize, trim, trim_bounds, words, join_with,
};

verus! {

/// The (role, content) of a message.
pub open spec fn msg_view(m: Message) -> (Seq<char>, Seq<char>) {
    (m.role@, m.content@)
}

/// The (role, content) of each message.
pub open spec fn msgs_view(ms: Seq<Message>) -> Seq<(Seq<char>, Seq<char>)> {
    ms.map_values(|m: Message| msg_view(m))
}

/// The request sent when the user ends a session, asking the model for a title.
pub open spec fn title_request() -> Seq<char> {
    "give this conversation a short name, reply only with: title='name'"@
}

/// What the session does with a line of user input.
#[derive(Debug, Clone, Copy, PartialEq, Eq, Structural)]
pub enum InputAction {
    /// Send the input to the model and show the reply.
    Send,
    /// Save the history, ask the model for a title, write the transcript and stop.
    Finish,
    /// Stop without saving anything.
    Abandon,
}

/// The action that user input calls for: `exit` finishes the session,
/// `exit nosave` abandons it, anything else is sent.
pub open spec fn input_action(input: Seq<char>) -> InputAction {
    if input == "exit"@ {
        InputAction::Finish
    } else if input == "exit nosave"@ {
        InputAction::Abandon
    } else {
        InputAction::Send
    }
}

/// Decides [`input_action`].
pub fn classify_input(input: &str) -> (a: InputAction)
    ensures
        a == input_action(input@),
{
    if str_eq(input, "exit") {
        InputAction::Finish
    } else if str_eq(input, "exit nosave") {
        InputAction::Abandon
    } else {
        InputAction::Send
    }
}

/// Whether `s` is the line that turns on multi-line input.
pub open spec fn is_multiline_marker(s: Seq<char>) -> bool {
    trim(s) == "#ML"@
}

/// Whether `s` is the line that ends multi-line input.
pub open spec fn is_end_marker(s: Seq<char>) -> bool {
    trim(s) == "END"@
}

/// Decides [`is_multiline_marker`].
pub fn multiline_marker(line: &str) -> (r: bool)
    ensures
        r == is_multiline_marker(line@),
{
    let t = crate::text::trim_str(line);
    str_eq(t.as_str(), "#ML")
}

/// Decides [`is_end_marker`].
pub fn end_marker(line: &str) -> (r: bool)
    ensures
        r == is_end_marker(line@),
{
    let t = crate::text::trim_str(line);
    str_eq(t.as_str(), "END")
}

/// The lines of a multi-line input, each followed by a line break.
pub open spec fn lines_joined(lines: Seq<Seq<char>>) -> Seq<char>
    decreases lines.len(),
{
    if lines.len() == 0 {
        Seq::empty()
    } else {
        lines_joined(lines.drop_last()) + lines.last() + "\n"@
    }
}

/// The user input made of the lines read in multi-line mode (those before the end
/// marker): each line followed by a line break, then trailing whitespace removed.
pub fn join_multiline(lines: &Vec<String>) -> (r: String)
    ensures
        r@ == crate::text::trim_end(lines_joined(crate::text::views(lines@))),
{
    let mut acc = String::new();
    let n = lines.len();
    let mut i: usize = 0;
    while i < n
        invariant
            i <= n == lines.len(),
            acc@ == lines_joined(crate::text::views(lines@).take(i as int)),
        decreases n - i,
    {
        acc.append(lines[i].as_str());
        acc.append("\n");
        proof {
            let vs = crate::text::views(lines@);
            assert(vs.take(i + 1).drop_last() =~= vs.take(i as int));
            assert(vs.take(i + 1).last() == lines@[i as int]@);
        }
        i = i + 1;
    }
    assert(crate::text::views(lines@).take(n as int) =~= crate::text::views(lines@));
    crate::text::trim_end_str(acc.as_str())
}

/// The messages of a chat and whether the user has asked to end it.
pub struct ChatSession {
    pub messages: Vec<Message>,
    pub about_to_quit: bool,
}

impl ChatSession {
    /// A new session that starts with the system prompt.
    pub fn new(system_prompt: &str) -> (s: ChatSession)
        ensures
            msgs_view(s.messages@) == seq![("system"@, system_prompt@)],
            !s.about_to_quit,
    {
        let mut messages: Vec<Message> = Vec::new();
        messages.push(Message::new("system", system_prompt));
        assert(msgs_view(messages@) =~= seq![("system"@, system_prompt@)]);
        ChatSession { messages, about_to_quit: false }
    }

    /// A session that goes on from the messages of an earlier one.
    pub fn restored(messages: Vec<Message>) -> (s: ChatSession)
        ensures
            s.messages@ == messages@,
            !s.about_to_quit,
    {
        ChatSession { messages, about_to_quit: false }
    }

    /// Records a line of user input: `exit` marks the session as ending and adds the
    /// title request; any other input, while the session is not ending, is added as
    /// a user message.
    pub fn record_input(&mut self, input: &str)
        ensures
            input@ == "exit"@ ==> {
                &&& final(self).about_to_quit
                &&& msgs_view(final(self).messages@) == msgs_view(old(self).messages@).push(
                    ("user"@, title_request()),
                )
            },
            input@ != "exit"@ ==> final(self).about_to_quit == old(self).about_to_quit,
            input@ != "exit"@ && !old(self).about_to_quit ==> msgs_view(final(self).messages@)
                == msgs_view(old(self).messages@).push(("user"@, input@)),
            input@ != "exit"@ && old(self).about_to_quit ==> final(self).messages@ == old(
                self,
            ).messages@,
    {
        if str_eq(input, "exit") {
            self.about_to_quit = true;
            self.messages.push(
                Message::new(
                    "user",
                    "give this conversation a short name, reply only with: title='name'",
                ),
            );
            assert(msgs_view(self.messages@) =~= msgs_view(old(self).messages@).push(
                ("user"@, title_request()),
            ));
        } else if !self.about_to_quit {
            self.messages.push(Message::new("user", input));
            assert(msgs_view(self.messages@) =~= msgs_view(old(self).messages@).push(
                ("user"@, input@),
            ));
        }
    }

    /// Records the model's reply as an assistant message.
    pub fn record_reply(&mut self, reply: &str)
        ensures
            msgs_view(final(self).messages@) == msgs_view(old(self).messages@).push(
                ("assistant"@, reply@),
            ),
            final(self).about_to_quit == old(self).about_to_quit,
    {
        self.messages.push(Message::new("assistant", reply));
        assert(msgs_view(self.messages@) =~= msgs_view(old(self).messages@).push(
            ("assistant"@, reply@),
        ));
    }
}


/// The (messages, ending) of a session after it records `input`: `exit` marks it as
/// ending and adds the title request; other input, while it is not ending, is added
/// as a user message.
pub open spec fn after_input(ms: Seq<(Seq<char>, Seq<char>)>, quitting: bool, input: Seq<char>) -> (
    Seq<(Seq<char>, Seq<char>)>,
    bool,
) {
    if input == "exit"@ {
        (ms.push(("user"@, title_request())), true)
    } else if !quitting {
        (ms.push(("user"@, input)), quitting)
    } else {
        (ms, quitting)
    }
}

/// How a turn goes on once the user's input is recorded.
pub enum TurnStart {
    /// Send the conversation and show the reply.
    Send,
    /// Save these messages (the history before the title request), then send.
    SaveHistoryAndSend(Vec<Message>),
    /// Stop at once, saving nothing.
    Stop,
}

/// Copies of the messages.
pub fn copy_messages(messages: &Vec<Message>) -> (r: Vec<Message>)
    ensures
        msgs_view(r@) == msgs_view(messages@),
{
    let mut r: Vec<Message> = Vec::new();
    let n = messages.len();
    let mut i: usize = 0;
    while i < n
        invariant
            i <= n == messages.len(),
            msgs_view(r@) == msgs_view(messages@).take(i as int),
        decreases n - i,
    {
        let m = &messages[i];
        let ghost before = r@;
        let c = Message::new(m.role.as_str(), m.content.as_str());
        r.push(c);
        assert(r@ == before.push(c));
        assert(msgs_view(messages@)[i as int] == msg_view(messages@[i as int]));
        assert(msgs_view(r@) =~= msgs_view(before).push(msg_view(c)));
        assert(msgs_view(r@) =~= msgs_view(messages@).take(i + 1));
        i = i + 1;
    }
    assert(msgs_view(messages@).take(n as int) =~= msgs_view(messages@));
    r
}

impl ChatSession {
    /// Starts a turn with the user's input. On `exit` the history as it stood is handed
    /// back for saving before the title request is added; on `exit nosave` the turn
    /// stops; otherwise the input is sent. The session records the input either way.
    pub fn begin_turn(&mut self, input: &str) -> (r: TurnStart)
        ensures
            (msgs_view(final(self).messages@), final(self).about_to_quit) == after_input(
                msgs_view(old(self).messages@),
                old(self).about_to_quit,
                input@,
            ),
            input_action(input@) == InputAction::Finish ==> (r matches TurnStart::SaveHistoryAndSend(
                h,
            ) && msgs_view(h@) == msgs_view(old(self).messages@)),
            input_action(input@) == InputAction::Abandon ==> r is Stop,
            input_action(input@) == InputAction::Send ==> r is Send,
    {
        let action = classify_input(input);
        let saved = match action {
            InputAction::Finish => Some(copy_messages(&self.messages)),
            _ => None,
        };
        self.record_input(input);
        match action {
            InputAction::Finish => match saved {
                Some(h) => TurnStart::SaveHistoryAndSend(h),
                None => TurnStart::Send,
            },
            InputAction::Abandon => TurnStart::Stop,
            InputAction::Send => TurnStart::Send,
        }
    }

    /// Ends a turn after the reply: when the session is ending, the name of the
    /// transcript file (for base name `md_base`) and its text, to be written before
    /// stopping; otherwise nothing, and the session goes on.
    pub fn finish_turn(&self, md_base: &str) -> (r: Option<(String, String)>)
        ensures
            r is Some <==> self.about_to_quit,
            r matches Some((name, text)) ==> name@ == md_file_name(
                md_base@,
                msgs_view(self.messages@),
            ) && text@ == transcript(msgs_view(self.messages@)),
    {
        if self.about_to_quit {
            let text = conversation_markdown(&self.messages);
            let name = markdown_filename(md_base, &self.messages);
            Some((name, text))
        } else {
            None
        }
    }
}

/// The transcript line of a message: `- **role**: content`.
pub open spec fn md_line(m: (Seq<char>, Seq<char>)) -> Seq<char> {
    "- **"@ + m.0 + "**: "@ + m.1
}

/// The transcript of a conversation: one line per message, in order.
pub open spec fn transcript(ms: Seq<(Seq<char>, Seq<char>)>) -> Seq<char> {
    join_with(ms.map_values(|m: (Seq<char>, Seq<char>)| md_line(m)), "\n"@)
}

/// The transcript of the messages as it is written to the conversation file.
pub fn conversation_markdown(messages: &Vec<Message>) -> (r: String)
    ensures
        r@ == transcript(msgs_view(messages@)),
{
    let ghost lines = msgs_view(messages@).map_values(|m: (Seq<char>, Seq<char>)| md_line(m));
    let mut acc = String::new();
    let n = messages.len();
    let mut i: usize = 0;
    while i < n
        invariant
            i <= n == messages.len(),
            lines == msgs_view(messages@).map_values(|m: (Seq<char>, Seq<char>)| md_line(m)),
            acc@ == join_with(lines.take(i as int), "\n"@),
        decreases n - i,
    {
        let m = &messages[i];
        proof {
            assert(lines[i as int] == md_line((m.role@, m.content@)));
            assert(lines.take(i + 1).drop_last() =~= lines.take(i as int));
            assert(lines.take(i + 1).last() == lines[i as int]);
        }
        if i > 0 {
            acc.append("\n");
        } else {
            assert(acc@ =~= Seq::<char>::empty());
        }
        acc.append("- **");
        acc.append(m.role.as_str());
        acc.append("**: ");
        acc.append(m.content.as_str());
        proof {
            if i == 0 {
                assert(acc@ =~= lines[0]);
            } else {
                assert(acc@ =~= join_with(lines.take(i as int), "\n"@) + "\n"@ + lines[i as int]);
            }
        }
        i = i + 1;
    }
    assert(lines.take(n as int) =~= lines);
    acc
}

/// The number of whitespace-separated tokens in the contents of the messages.
pub open spec fn token_total(ms: Seq<Message>) -> nat
    decreases ms.len(),
{
    if ms.len() == 0 {
        0
    } else {
        token_total(ms.drop_last()) + words(ms.last().content@).len()
    }
}

/// The number of tokens in the conversation so far (at most `usize::MAX`).
pub fn count_tokens(messages: &Vec<Message>) -> (r: usize)
    ensures
        r == if token_total(messages@) <= usize::MAX {
            token_total(messages@)
        } else {
            usize::MAX as nat
        },
{
    let mut total: usize = 0;
    let n = messages.len();
    let mut i: usize = 0;
    while i < n
        invariant
            i <= n == messages.len(),
            total == if token_total(messages@.take(i as int)) <= usize::MAX {
                token_total(messages@.take(i as int))
            } else {
                usize::MAX as nat
            },
        decreases n - i,
    {
        let tokens = tokenize(messages[i].content.as_str());
        let k = tokens.len();
        proof {
            assert(messages@.take(i + 1).drop_last() =~= messages@.take(i as int));
            assert(crate::text::views(tokens@).len() == tokens@.len());
        }
        if total > usize::MAX - k {
            total = usize::MAX;
        } else {
            total = total + k;
        }
        i = i + 1;
    }
    assert(messages@.take(n as int) =~= messages@);
    total
}

/// Whether a message is the model's answer to the title request.
pub open spec fn is_title_message(m: (Seq<char>, Seq<char>)) -> bool {
    equals_lower(m.0, "assistant"@) && starts_with_lower(m.1, "title="@)
}

/// The title that the model gave: the content after `title=` of the first title
/// message, trimmed; empty when there is none.
pub open spec fn title_of(ms: Seq<(Seq<char>, Seq<char>)>) -> Seq<char>
    decreases ms.len(),
{
    if ms.len() == 0 {
        Seq::empty()
    } else if is_title_message(ms[0]) {
        trim(ms[0].1.skip("title="@.len() as int))
    } else {
        title_of(ms.drop_first())
    }
}

/// The title that the model gave the conversation, or an empty string.
pub fn extract_title(messages: &Vec<Message>) -> (r: String)
    ensures
        r@ == title_of(msgs_view(messages@)),
{
    let n = messages.len();
    let mut i: usize = 0;
    assert(msgs_view(messages@).skip(0) =~= msgs_view(messages@));
    while i < n
        invariant
            i <= n == messages.len(),
            title_of(msgs_view(messages@)) == title_of(msgs_view(messages@).skip(i as int)),
        decreases n - i,
    {
        let m = &messages[i];
        let ghost rest = msgs_view(messages@).skip(i as int);
        assert(rest[0] == (m.role@, m.content@));
        if equals_lower_str(m.role.as_str(), "assistant") && starts_with_lower_str(
            m.content.as_str(),
            "title=",
        ) {
            let v = chars_of(m.content.as_str());
            let p = chars_of("title=");
            let tail = sub_chars(&v, p.len(), v.len());
            let (a, b) = trim_bounds(&tail);
            let kept = sub_chars(&tail, a, b);
            assert(tail@ =~= m.content@.skip("title="@.len() as int));
            return string_of(kept.as_slice());
        }
        assert(rest.drop_first() =~= msgs_view(messages@).skip(i + 1));
        i = i + 1;
    }
    assert(msgs_view(messages@).skip(n as int) =~= Seq::<(Seq<char>, Seq<char>)>::empty());
    String::new()
}

/// The part of `s` before its first line break.
pub open spec fn first_line(s: Seq<char>) -> Seq<char>
    decreases s.len(),
{
    if s.len() == 0 || s[0] == '\n' {
        Seq::empty()
    } else {
        seq![s[0]] + first_line(s.drop_first())
    }
}

/// `s` with each space replaced by `_` and each `'` removed.
pub open spec fn clean_title(s: Seq<char>) -> Seq<char>
    decreases s.len(),
{
    if s.len() == 0 {
        Seq::empty()
    } else if s.last() == ' ' {
        clean_title(s.drop_last()).push('_')
    } else if s.last() == '\'' {
        clean_title(s.drop_last())
    } else {
        clean_title(s.drop_last()).push(s.last())
    }
}

/// The title as it goes into a file name: its first line, spaces made `_`, quotes dropped.
pub open spec fn file_title(t: Seq<char>) -> Seq<char> {
    clean_title(first_line(t))
}

/// The conversation file name: `base--title.md` when the model gave a title,
/// `base.md` otherwise.
pub open spec fn md_file_name(base: Seq<char>, ms: Seq<(Seq<char>, Seq<char>)>) -> Seq<char> {
    if title_of(ms).len() > 0 {
        base + "--"@ + file_title(title_of(ms)) + ".md"@
    } else {
        base + ".md"@
    }
}

/// Computes [`file_title`].
pub fn sanitize_title(title: &str) -> (r: String)
    ensures
        r@ == file_title(title@),
{
    let v = chars_of(title);
    let n = v.len();
    let mut end: usize = 0;
    assert(v@.take(0) + first_line(v@.skip(0)) =~= first_line(v@)) by {
        assert(v@.skip(0) =~= v@);
    }
    while end < n && v[end] != '\n'
        invariant
            end <= n == v.len(),
            v@ == title@,
            first_line(v@) == v@.take(end as int) + first_line(v@.skip(end as int)),
        decreases n - end,
    {
        proof {
            let r = v@.skip(end as int);
            assert(r.drop_first() =~= v@.skip(end + 1));
            assert(v@.take(end as int) + seq![r[0]] =~= v@.take(end + 1));
        }
        end = end + 1;
    }
    proof {
        let r = v@.skip(end as int);
        assert(first_line(r) =~= Seq::<char>::empty());
        assert(first_line(v@) =~= v@.take(end as int));
    }
    let mut out: Vec<char> = Vec::new();
    let mut i: usize = 0;
    while i < end
        invariant
            i <= end <= n == v.len(),
            out@ == clean_title(v@.take(i as int)),
        decreases end - i,
    {
        let c = v[i];
        assert(v@.take(i + 1).drop_last() =~= v@.take(i as int));
        if c == ' ' {
            out.push('_');
        } else if c != '\'' {
            out.push(c);
        }
        i = i + 1;
    }
    string_of(out.as_slice())
}

/// The name of the conversation file for base name `base`.
pub fn markdown_filename(base: &str, messages: &Vec<Message>) -> (r: String)
    ensures
        r@ == md_file_name(base@, msgs_view(messages@)),
{
    let title = extract_title(messages);
    let mut name = base.to_owned();
    if title.unicode_len() > 0 {
        let clean = sanitize_title(title.as_str());
        name.append("--");
        name.append(clean.as_str());
    }
    name.append(".md");
    name
}

/// The conversation file name always ends in `.md`, and the title part of it holds no
/// space, no `'` and no line break.
pub proof fn lemma_file_name_shape(base: Seq<char>, ms: Seq<(Seq<char>, Seq<char>)>)
    ensures
        md_file_name(base, ms).len() >= ".md"@.len(),
        md_file_name(base, ms).skip(md_file_name(base, ms).len() - ".md"@.len()) == ".md"@,
        forall|j: int|
            0 <= j < file_title(title_of(ms)).len() ==> {
                let c = #[trigger] file_title(title_of(ms))[j];
                c != ' ' && c != '\'' && c != '\n'
            },
{
    let f = md_file_name(base, ms);
    let pre = if title_of(ms).len() > 0 {
        base + "--"@ + file_title(title_of(ms))
    } else {
        base
    };
    assert(f == pre + ".md"@);
    assert(f.skip(f.len() - ".md"@.len()) =~= ".md"@);
    lemma_first_line_no_break(title_of(ms));
    lemma_clean_title(first_line(title_of(ms)));
}

proof fn lemma_title_skips(a: Seq<(Seq<char>, Seq<char>)>, b: Seq<(Seq<char>, Seq<char>)>)
    requires
        forall|i: int| 0 <= i < a.len() ==> !is_title_message(#[trigger] a[i]),
    ensures
        title_of(a + b) == title_of(b),
    decreases a.len(),
{
    if a.len() > 0 {
        let t = a.drop_first();
        assert forall|i: int| 0 <= i < t.len() implies !is_title_message(#[trigger] t[i]) by {
            assert(t[i] == a[i + 1]);
        }
        lemma_title_skips(t, b);
        assert((a + b)[0] == a[0]);
        assert((a + b).drop_first() =~= t + b);
    } else {
        assert(a + b =~= b);
    }
}

/// The title is taken from the first title answer, wherever it stands and whatever
/// follows it: the rest of that answer after `title=`, trimmed. Without any title
/// answer there is no title.
pub proof fn lemma_title_first(
    a: Seq<(Seq<char>, Seq<char>)>,
    m: (Seq<char>, Seq<char>),
    b: Seq<(Seq<char>, Seq<char>)>,
)
    requires
        forall|i: int| 0 <= i < a.len() ==> !is_title_message(#[trigger] a[i]),
    ensures
        is_title_message(m) ==> title_of(a + seq![m] + b) == trim(m.1.skip("title="@.len() as int)),
        title_of(a) == Seq::<char>::empty(),
{
    lemma_title_skips(a, seq![m] + b);
    assert(a + seq![m] + b =~= a + (seq![m] + b));
    assert((seq![m] + b)[0] == m);
    let e: Seq<(Seq<char>, Seq<char>)> = Seq::empty();
    lemma_title_skips(a, e);
    assert(a + e =~= a);
}

/// Ending a session names its transcript after the model's answer: when no earlier
/// message was a title answer, and the reply to the title request starts with
/// `title=` (in any ASCII case), the title is the rest of that reply, trimmed, and
/// the transcript file is `base--title.md` (or `base.md` if that rest is blank).
pub proof fn lemma_reply_names_transcript(
    ms: Seq<(Seq<char>, Seq<char>)>,
    base: Seq<char>,
    reply: Seq<char>,
)
    requires
        forall|i: int| 0 <= i < ms.len() ==> !is_title_message(#[trigger] ms[i]),
        starts_with_lower(reply, "title="@),
    ensures
        title_of(ms.push(("user"@, title_request())).push(("assistant"@, reply))) == trim(
            reply.skip("title="@.len() as int),
        ),
        md_file_name(base, ms.push(("user"@, title_request())).push(("assistant"@, reply)))
            == if trim(reply.skip("title="@.len() as int)).len() > 0 {
            base + "--"@ + file_title(trim(reply.skip("title="@.len() as int))) + ".md"@
        } else {
            base + ".md"@
        },
{
    reveal_strlit("user");
    reveal_strlit("assistant");
    let req: (Seq<char>, Seq<char>) = ("user"@, title_request());
    let ans: (Seq<char>, Seq<char>) = ("assistant"@, reply);
    let pre = ms.push(req);
    assert(!is_title_message(req));
    assert forall|i: int| 0 <= i < pre.len() implies !is_title_message(#[trigger] pre[i]) by {
        if i < ms.len() {
            assert(pre[i] == ms[i]);
        }
    }
    assert(is_title_message(ans));
    lemma_title_skips(pre, seq![ans]);
    assert(pre.push(ans) =~= pre + seq![ans]);
}

/// The input that stops without saving is exactly `exit nosave`, the input that ends
/// the session is exactly `exit`, and every other input (the empty line included)
/// is sent.
pub proof fn lemma_input_actions(input: Seq<char>)
    ensures
        (input_action(input) == InputAction::Abandon) <==> input == "exit nosave"@,
        (input_action(input) == InputAction::Finish) <==> input == "exit"@,
        (input_action(input) == InputAction::Send) <==> (input != "exit"@ && input
            != "exit nosave"@),
{
    reveal_strlit("exit");
    reveal_strlit("exit nosave");
    assert("exit"@.len() != "exit nosave"@.len());
}

/// What a turn records: while the session is not ending, an input that is sent (and
/// `exit nosave`) is added as the user's message and `exit` adds the title request
/// and marks the session as ending; once it is ending, only `exit` still adds a
/// message. Nothing earlier is ever changed.
pub proof fn lemma_turn_records(ms: Seq<(Seq<char>, Seq<char>)>, quitting: bool, input: Seq<char>)
    ensures
        after_input(ms, quitting, input).0.len() <= ms.len() + 1,
        after_input(ms, quitting, input).0.take(ms.len() as int) == ms,
        input_action(input) == InputAction::Finish ==> after_input(ms, quitting, input) == (
            ms.push(("user"@, title_request())),
            true,
        ),
        input_action(input) != InputAction::Finish && !quitting ==> after_input(
            ms,
            quitting,
            input,
        ) == (ms.push(("user"@, input)), false),
        input_action(input) != InputAction::Finish && quitting ==> after_input(
            ms,
            quitting,
            input,
        ) == (ms, true),
{
    lemma_input_actions(input);
    assert(ms.push(("user"@, title_request())).take(ms.len() as int) =~= ms);
    assert(ms.push(("user"@, input)).take(ms.len() as int) =~= ms);
    assert(ms.take(ms.len() as int) =~= ms);
}

/// The token count adds up over the messages: that of two runs of messages is the
/// sum of theirs, and one message counts the tokens of its content.
pub proof fn lemma_token_total(a: Seq<Message>, b: Seq<Message>, m: Message)
    ensures
        token_total(a + b) == token_total(a) + token_total(b),
        token_total(seq![m]) == words(m.content@).len(),
    decreases b.len(),
{
    let e: Seq<Message> = Seq::empty();
    assert(seq![m].drop_last() =~= e);
    assert(seq![m].last() == m);
    assert(token_total(e) == 0);
    if b.len() == 0 {
        assert(a + b =~= a);
    } else {
        lemma_token_total(a, b.drop_last(), m);
        assert((a + b).drop_last() =~= a + b.drop_last());
        assert((a + b).last() == b.last());
    }
}

/// Multi-line input keeps every line read: joining distributes over concatenation of
/// the line lists, and one line (an empty one too) becomes that line and a break.
pub proof fn lemma_lines_joined(a: Seq<Seq<char>>, b: Seq<Seq<char>>, l: Seq<char>)
    ensures
        lines_joined(a + b) == lines_joined(a) + lines_joined(b),
        lines_joined(seq![l]) == l + "\n"@,
    decreases b.len(),
{
    let e: Seq<Seq<char>> = Seq::empty();
    assert(seq![l].drop_last() =~= e);
    assert(lines_joined(e) + l + "\n"@ =~= l + "\n"@);
    if b.len() == 0 {
        assert(a + b =~= a);
        assert(lines_joined(a) + lines_joined(b) =~= lines_joined(a));
    } else {
        lemma_lines_joined(a, b.drop_last(), l);
        assert((a + b).drop_last() =~= a + b.drop_last());
        assert((a + b).last() == b.last());
        assert(lines_joined(a) + lines_joined(b.drop_last()) + b.last() + "\n"@ =~= lines_joined(a)
            + (lines_joined(b.drop_last()) + b.last() + "\n"@));
    }
}

/// Every message, whatever its role, is written as `- **role**: content`: a single
/// message is that line, and each further message adds a line break and its line.
pub proof fn lemma_transcript_lines(
    ms: Seq<(Seq<char>, Seq<char>)>,
    role: Seq<char>,
    content: Seq<char>,
)
    ensures
        transcript(seq![(role, content)]) == "- **"@ + role + "**: "@ + content,
        ms.len() > 0 ==> transcript(ms.push((role, content))) == transcript(ms) + "\n"@ + "- **"@
            + role + "**: "@ + content,
{
    let one = seq![(role, content)].map_values(|m: (Seq<char>, Seq<char>)| md_line(m));
    assert(one.len() == 1);
    assert(one[0] == md_line((role, content)));
    if ms.len() > 0 {
        let f = |m: (Seq<char>, Seq<char>)| md_line(m);
        let all = ms.push((role, content)).map_values(f);
        assert(all.drop_last() =~= ms.map_values(f));
        assert(all.last() == md_line((role, content)));
        assert(all.len() >= 2);
        assert(transcript(ms.push((role, content))) =~= transcript(ms) + "\n"@ + md_line(
            (role, content),
        ));
    }
    assert(md_line((role, content)) =~= "- **"@ + role + "**: "@ + content);
}

/// The title goes into the file name character for character: spaces become `_`,
/// quotes are dropped, every other character is kept in order, and only the first
/// line counts.
pub proof fn lemma_file_title(a: Seq<char>, b: Seq<char>, c: char)
    ensures
        clean_title(a + b) == clean_title(a) + clean_title(b),
        clean_title(seq![c]) == (if c == ' ' {
            seq!['_']
        } else if c == '\'' {
            Seq::<char>::empty()
        } else {
            seq![c]
        }),
        (forall|i: int| 0 <= i < a.len() ==> #[trigger] a[i] != ' ' && a[i] != '\'' && a[i]
            != '\n') ==> file_title(a) == a,
        (forall|i: int| 0 <= i < a.len() ==> #[trigger] a[i] != '\n') ==> file_title(
            a + seq!['\n'] + b,
        ) == clean_title(a),
{
    lemma_clean_concat(a, b);
    let e: Seq<char> = Seq::empty();
    assert(seq![c].drop_last() =~= e);
    assert(seq![c].last() == c);
    assert(clean_title(e) == e);
    assert(e.push('_') =~= seq!['_']);
    assert(e.push(c) =~= seq![c]);
    if forall|i: int| 0 <= i < a.len() ==> #[trigger] a[i] != ' ' && a[i] != '\'' && a[i] != '\n' {
        lemma_first_line_plain(a, e);
        assert(a + e =~= a);
        lemma_clean_plain(a);
    }
    if forall|i: int| 0 <= i < a.len() ==> #[trigger] a[i] != '\n' {
        lemma_first_line_plain(a, seq!['\n'] + b);
        assert(a + seq!['\n'] + b =~= a + (seq!['\n'] + b));
    }
}

proof fn lemma_clean_concat(a: Seq<char>, b: Seq<char>)
    ensures
        clean_title(a + b) == clean_title(a) + clean_title(b),
    decreases b.len(),
{
    if b.len() == 0 {
        assert(a + b =~= a);
        assert(clean_title(a) + clean_title(b) =~= clean_title(a));
    } else {
        lemma_clean_concat(a, b.drop_last());
        assert((a + b).drop_last() =~= a + b.drop_last());
        assert((a + b).last() == b.last());
        let x = clean_title(a);
        let y = clean_title(b.drop_last());
        assert((x + y).push(b.last()) =~= x + y.push(b.last()));
        assert((x + y).push('_') =~= x + y.push('_'));
    }
}

proof fn lemma_clean_plain(a: Seq<char>)
    requires
        forall|i: int| 0 <= i < a.len() ==> #[trigger] a[i] != ' ' && a[i] != '\'',
    ensures
        clean_title(a) == a,
    decreases a.len(),
{
    if a.len() > 0 {
        let a2 = a.drop_last();
        assert forall|i: int| 0 <= i < a2.len() implies #[trigger] a2[i] != ' ' && a2[i] != '\'' by {
            assert(a2[i] == a[i]);
        }
        lemma_clean_plain(a2);
        assert(a[a.len() - 1] == a.last());
        assert(a2.push(a.last()) =~= a);
    }
}

proof fn lemma_first_line_plain(a: Seq<char>, rest: Seq<char>)
    requires
        forall|i: int| 0 <= i < a.len() ==> #[trigger] a[i] != '\n',
        rest.len() == 0 || rest[0] == '\n',
    ensures
        first_line(a + rest) == a,
    decreases a.len(),
{
    if a.len() == 0 {
        assert(a + rest =~= rest);
    } else {
        let a2 = a.drop_first();
        assert forall|i: int| 0 <= i < a2.len() implies #[trigger] a2[i] != '\n' by {
            assert(a2[i] == a[i + 1]);
        }
        lemma_first_line_plain(a2, rest);
        assert((a + rest)[0] == a[0]);
        assert((a + rest).drop_first() =~= a2 + rest);
        assert(seq![a[0]] + a2 =~= a);
    }
}

proof fn lemma_first_line_no_break(s: Seq<char>)
    ensures
        forall|j: int| 0 <= j < first_line(s).len() ==> #[trigger] first_line(s)[j] != '\n',
    decreases s.len(),
{
    if s.len() > 0 && s[0] != '\n' {
        lemma_first_line_no_break(s.drop_first());
        assert forall|j: int| 0 <= j < first_line(s).len() implies #[trigger] first_line(s)[j]
            != '\n' by {
            if j > 0 {
                assert(first_line(s)[j] == first_line(s.drop_first())[j - 1]);
            }
        }
    }
}

proof fn lemma_clean_title(s: Seq<char>)
    requires
        forall|j: int| 0 <= j < s.len() ==> #[trigger] s[j] != '\n',
    ensures
        forall|j: int|
            0 <= j < clean_title(s).len() ==> {
                let c = #[trigger] clean_title(s)[j];
                c != ' ' && c != '\'' && c != '\n'
            },
    decreases s.len(),
{
    if s.len() > 0 {
        let t = s.drop_last();
        assert forall|j: int| 0 <= j < t.len() implies #[trigger] t[j] != '\n' by {
            assert(t[j] == s[j]);
        }
        lemma_clean_title(t);
        assert(s.last() == s[s.len() - 1]);
        let c0 = clean_title(t);
        assert forall|j: int| 0 <= j < clean_title(s).len() implies {
            let c = #[trigger] clean_title(s)[j];
            c != ' ' && c != '\'' && c != '\n'
        } by {
            if j < c0.len() {
                assert(clean_title(s)[j] == c0[j]);
            }
        }
    }
}

} // verus!
