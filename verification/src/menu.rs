//! The model menu: which (model, system prompt) pairs are on offer, how they are
//! listed, and which one a menu number selects.
use vstd::prelude::*;
use crate::models::{copy_opt, opt_view, ModelConfig, Prompts};
use crate::number::{choice_of, decimal, decimal_string, lemma_parse_decimal};
use crate::text::views;

verus! {

/// The kinds of system prompt that a model can be offered with, in menu order.
#[derive(Debug, Clone, Copy, PartialEq, Eq, Structural)]
pub enum PromptKind {
    Standard,
    Long,
    Code,
}

/// The prompt of kind `k` of a model.
pub open spec fn prompt_of(c: ModelConfig, k: PromptKind) -> Option<String> {
    match k {
        PromptKind::Standard => c.standard,
        PromptKind::Long => c.long,
        PromptKind::Code => c.code,
    }
}

/// The kinds of prompt that a model offers, in menu order.
pub open spec fn config_kinds(c: ModelConfig) -> Seq<PromptKind> {
    let s: Seq<PromptKind> = if c.standard is Some {
        seq![PromptKind::Standard]
    } else {
        Seq::empty()
    };
    let l: Seq<PromptKind> = if c.long is Some {
        seq![PromptKind::Long]
    } else {
        Seq::empty()
    };
    let d: Seq<PromptKind> = if c.code is Some {
        seq![PromptKind::Code]
    } else {
        Seq::empty()
    };
    s + l + d
}

/// Each (model, prompt kind) on offer, in menu order.
pub open spec fn menu_entries(cs: Seq<ModelConfig>) -> Seq<(ModelConfig, PromptKind)>
    decreases cs.len(),
{
    if cs.len() == 0 {
        Seq::empty()
    } else {
        menu_entries(cs.drop_last()) + config_kinds(cs.last()).map_values(
            |k: PromptKind| (cs.last(), k),
        )
    }
}

/// The (model name, system prompt) of an entry.
pub open spec fn entry_option(e: (ModelConfig, PromptKind)) -> (
    Option<Seq<char>>,
    Option<Seq<char>>,
) {
    (opt_view(e.0.model), opt_view(prompt_of(e.0, e.1)))
}

/// The (model name, system prompt) pairs on offer, in menu order.
pub open spec fn options_of(cs: Seq<ModelConfig>) -> Seq<(Option<Seq<char>>, Option<Seq<char>>)> {
    menu_entries(cs).map_values(|e: (ModelConfig, PromptKind)| entry_option(e))
}

/// The character views of a list of options.
pub open spec fn option_views(v: Seq<(Option<String>, Option<String>)>) -> Seq<
    (Option<Seq<char>>, Option<Seq<char>>),
> {
    v.map_values(|p: (Option<String>, Option<String>)| (opt_view(p.0), opt_view(p.1)))
}

proof fn lemma_entries_len(cs: Seq<ModelConfig>)
    ensures
        menu_entries(cs).len() <= 3 * cs.len(),
    decreases cs.len(),
{
    if cs.len() > 0 {
        lemma_entries_len(cs.drop_last());
    }
}

/// The (model, prompt) pairs that the menu offers, numbered from 1 in this order.
pub fn prompt_options(prompts: &Prompts) -> (r: Vec<(Option<String>, Option<String>)>)
    ensures
        option_views(r@) == options_of(prompts.options@),
{
    let cs = &prompts.options;
    let mut options: Vec<(Option<String>, Option<String>)> = Vec::new();
    let n = cs.len();
    let mut i: usize = 0;
    while i < n
        invariant
            i <= n == cs.len(),
            option_views(options@) == options_of(cs@.take(i as int)),
        decreases n - i,
    {
        let c = &cs[i];
        let ghost before = options@;
        let ghost kinds = config_kinds(*c);
        if c.standard.is_some() {
            options.push((copy_opt(&c.model), copy_opt(&c.standard)));
        }
        if c.long.is_some() {
            options.push((copy_opt(&c.model), copy_opt(&c.long)));
        }
        if c.code.is_some() {
            options.push((copy_opt(&c.model), copy_opt(&c.code)));
        }
        proof {
            let t = cs@.take(i + 1);
            assert(t.drop_last() =~= cs@.take(i as int));
            assert(t.last() == *c);
            let added = kinds.map_values(|k: PromptKind| (*c, k));
            assert(menu_entries(t) == menu_entries(cs@.take(i as int)) + added);
            assert(option_views(before).len() == before.len());
            assert(options_of(cs@.take(i as int)).len() == menu_entries(cs@.take(i as int)).len());
            assert(before.len() == menu_entries(cs@.take(i as int)).len());
            assert(options@.len() == before.len() + kinds.len());
            assert forall|j: int| 0 <= j < kinds.len() implies option_views(options@)[before.len()
                + j] == entry_option(#[trigger] added[j]) by {}
            assert forall|j: int| 0 <= j < before.len() implies #[trigger] option_views(
                options@,
            )[j] == options_of(t)[j] by {
                assert(options@[j] == before[j]);
                assert(option_views(before)[j] == options_of(cs@.take(i as int))[j]);
                assert(menu_entries(t)[j] == menu_entries(cs@.take(i as int))[j]);
            }
            assert forall|j: int| before.len() <= j < options@.len() implies #[trigger] option_views(
                options@,
            )[j] == options_of(t)[j] by {
                let jj = j - before.len();
                assert(option_views(options@)[before.len() + jj] == entry_option(added[jj]));
                assert(menu_entries(t)[j] == added[jj]);
            }
            assert(option_views(options@) =~= options_of(t));
        }
        i = i + 1;
    }
    assert(cs@.take(n as int) =~= cs@);
    options
}


/// The word by which the menu names a kind of prompt.
pub open spec fn kind_label(k: PromptKind) -> Seq<char> {
    match k {
        PromptKind::Standard => "Standard"@,
        PromptKind::Long => "Long"@,
        PromptKind::Code => "Code"@,
    }
}

/// The menu line that offers prompt kind `k` under number `n`: `[n] Label`.
pub open spec fn numbered_line(n: nat, k: PromptKind) -> Seq<char> {
    "["@ + decimal(n) + "] "@ + kind_label(k)
}

/// The menu line that names a model, `undefined` when it has no name.
pub open spec fn model_line(c: ModelConfig) -> Seq<char> {
    "Model: "@ + match c.model {
        Some(m) => m@,
        None => "undefined"@,
    }
}

/// The menu lines of one model whose first prompt gets number `first`:
/// its name, one numbered line per prompt, and an empty line.
pub open spec fn config_block(c: ModelConfig, first: nat) -> Seq<Seq<char>> {
    seq![model_line(c)] + config_kinds(c).map(|j: int, k: PromptKind| numbered_line((first + j) as nat, k))
        + seq![Seq::<char>::empty()]
}

/// The lines of the model menu, prompts numbered from 1 in menu order.
pub open spec fn menu_of(cs: Seq<ModelConfig>) -> Seq<Seq<char>>
    decreases cs.len(),
{
    if cs.len() == 0 {
        Seq::empty()
    } else {
        menu_of(cs.drop_last()) + config_block(cs.last(), menu_entries(cs.drop_last()).len() + 1)
    }
}

fn kind_line(n: usize, k: PromptKind) -> (s: String)
    ensures
        s@ == numbered_line(n as nat, k),
{
    let mut s = String::from_str("[");
    let d = decimal_string(n);
    s.append(d.as_str());
    s.append("] ");
    match k {
        PromptKind::Standard => s.append("Standard"),
        PromptKind::Long => s.append("Long"),
        PromptKind::Code => s.append("Code"),
    }
    s
}

fn config_lines(c: &ModelConfig, first: usize) -> (lines: Vec<String>)
    requires
        first + 3 <= usize::MAX,
    ensures
        views(lines@) == config_block(*c, first as nat),
{
    let mut lines: Vec<String> = Vec::new();
    let mut head = String::from_str("Model: ");
    match &c.model {
        Some(m) => head.append(m.as_str()),
        None => head.append("undefined"),
    }
    lines.push(head);
    let ghost mut kinds: Seq<PromptKind> = Seq::empty();
    let mut index = first;
    assert(views(lines@) =~= seq![model_line(*c)] + kinds.map(
        |j: int, k: PromptKind| numbered_line((first + j) as nat, k),
    ));
    if c.standard.is_some() {
        lines.push(kind_line(index, PromptKind::Standard));
        index = index + 1;
        proof {
            kinds = kinds.push(PromptKind::Standard);
        }
        assert(views(lines@) =~= seq![model_line(*c)] + kinds.map(
            |j: int, k: PromptKind| numbered_line((first + j) as nat, k),
        ));
    }
    if c.long.is_some() {
        lines.push(kind_line(index, PromptKind::Long));
        index = index + 1;
        proof {
            kinds = kinds.push(PromptKind::Long);
        }
        assert(views(lines@) =~= seq![model_line(*c)] + kinds.map(
            |j: int, k: PromptKind| numbered_line((first + j) as nat, k),
        ));
    }
    if c.code.is_some() {
        lines.push(kind_line(index, PromptKind::Code));
        proof {
            kinds = kinds.push(PromptKind::Code);
        }
        assert(views(lines@) =~= seq![model_line(*c)] + kinds.map(
            |j: int, k: PromptKind| numbered_line((first + j) as nat, k),
        ));
    }
    assert(kinds =~= config_kinds(*c));
    lines.push(String::new());
    assert(views(lines@) =~= config_block(*c, first as nat));
    lines
}

/// The lines of the model menu, with the prompts numbered from 1 in the order of
/// [`prompt_options`].
pub fn model_config_menu(prompts: &Prompts) -> (lines: Vec<String>)
    requires
        prompts.options.len() <= usize::MAX / 4,
    ensures
        views(lines@) == menu_of(prompts.options@),
{
    let cs = &prompts.options;
    let n = cs.len();
    let mut lines: Vec<String> = Vec::new();
    let mut index: usize = 1;
    let mut i: usize = 0;
    while i < n
        invariant
            i <= n == cs.len(),
            n <= usize::MAX / 4,
            views(lines@) == menu_of(cs@.take(i as int)),
            index == menu_entries(cs@.take(i as int)).len() + 1,
        decreases n - i,
    {
        let c = &cs[i];
        proof {
            lemma_entries_len(cs@.take(i as int));
        }
        let mut block = config_lines(c, index);
        let ghost before = lines@;
        lines.append(&mut block);
        let t = if c.standard.is_some() { 1usize } else { 0usize } + if c.long.is_some() { 1usize } else { 0usize } + if c.code.is_some() { 1usize } else { 0usize };
        index = index + t;
        proof {
            let tk = cs@.take(i + 1);
            assert(tk.drop_last() =~= cs@.take(i as int));
            assert(tk.last() == *c);
            assert(views(lines@) =~= views(before) + config_block(*c, (index - t) as nat));
        }
        i = i + 1;
    }
    assert(cs@.take(n as int) =~= cs@);
    lines
}


/// The menu lines of the models `cs` with their prompts numbered from `first`.
pub open spec fn menu_from(cs: Seq<ModelConfig>, first: nat) -> Seq<Seq<char>>
    decreases cs.len(),
{
    if cs.len() == 0 {
        Seq::empty()
    } else {
        menu_from(cs.drop_last(), first) + config_block(
            cs.last(),
            first + menu_entries(cs.drop_last()).len(),
        )
    }
}

proof fn lemma_entries_concat(a: Seq<ModelConfig>, b: Seq<ModelConfig>)
    ensures
        menu_entries(a + b) == menu_entries(a) + menu_entries(b),
    decreases b.len(),
{
    if b.len() == 0 {
        assert(a + b =~= a);
        assert(menu_entries(a) + menu_entries(b) =~= menu_entries(a));
    } else {
        lemma_entries_concat(a, b.drop_last());
        assert((a + b).drop_last() =~= a + b.drop_last());
        assert((a + b).last() == b.last());
        let added = config_kinds(b.last()).map_values(|k: PromptKind| (b.last(), k));
        assert(menu_entries(a) + menu_entries(b.drop_last()) + added =~= menu_entries(a) + (
        menu_entries(b.drop_last()) + added));
    }
}

proof fn lemma_menu_from_one(cs: Seq<ModelConfig>)
    ensures
        menu_of(cs) == menu_from(cs, 1),
    decreases cs.len(),
{
    if cs.len() > 0 {
        lemma_menu_from_one(cs.drop_last());
    }
}

/// The menu of two model lists joined is the menu of the first list followed by the
/// menu of the second with every number moved on by the first list's number of
/// prompts; the options are joined the same way.
pub proof fn lemma_menu_concat(a: Seq<ModelConfig>, b: Seq<ModelConfig>)
    ensures
        menu_of(a + b) == menu_of(a) + menu_from(b, menu_entries(a).len() + 1),
        menu_of(b) == menu_from(b, 1),
        options_of(a + b) == options_of(a) + options_of(b),
    decreases b.len(),
{
    lemma_menu_from_one(b);
    lemma_entries_concat(a, b);
    assert(options_of(a + b) =~= options_of(a) + options_of(b));
    if b.len() == 0 {
        assert(a + b =~= a);
        assert(menu_of(a) + menu_from(b, menu_entries(a).len() + 1) =~= menu_of(a));
    } else {
        let b2 = b.drop_last();
        lemma_menu_concat(a, b2);
        lemma_entries_concat(a, b2);
        assert((a + b).drop_last() =~= a + b2);
        assert((a + b).last() == b.last());
        let n = menu_entries(a).len();
        let blk = config_block(b.last(), n + 1 + menu_entries(b2).len());
        assert(menu_of(a + b) == menu_of(a + b2) + config_block(
            b.last(),
            menu_entries(a + b2).len() + 1,
        ));
        assert(menu_entries(a + b2).len() + 1 == n + 1 + menu_entries(b2).len());
        assert(menu_of(a) + menu_from(b2, n + 1) + blk =~= menu_of(a) + (menu_from(b2, n + 1)
            + blk));
    }
}

/// Why a menu choice cannot be used.
#[derive(Debug, Clone, Copy, PartialEq, Eq, Structural)]
pub enum SelectError {
    /// No option has the chosen number.
    InvalidOption,
    /// The chosen option names no model.
    ModelUndefined,
    /// The chosen option has no system prompt.
    NoPrompt,
}

/// The text by which each selection error is reported.
pub open spec fn select_error_text(e: SelectError) -> Seq<char> {
    match e {
        SelectError::InvalidOption => "Invalid option selected"@,
        SelectError::ModelUndefined => "Model undefined"@,
        SelectError::NoPrompt => "No prompt available"@,
    }
}

impl SelectError {
    /// The text by which this error is reported.
    pub fn message(&self) -> (m: &'static str)
        ensures
            m@ == select_error_text(*self),
    {
        match self {
            SelectError::InvalidOption => "Invalid option selected",
            SelectError::ModelUndefined => "Model undefined",
            SelectError::NoPrompt => "No prompt available",
        }
    }
}

/// The (model name, system prompt) that menu number `choice` selects among `opts`.
pub open spec fn selection(opts: Seq<(Option<Seq<char>>, Option<Seq<char>>)>, choice: nat) -> Result<
    (Seq<char>, Seq<char>),
    SelectError,
> {
    if choice == 0 || choice > opts.len() {
        Err(SelectError::InvalidOption)
    } else {
        match opts[choice - 1] {
            (None, _) => Err(SelectError::ModelUndefined),
            (Some(_), None) => Err(SelectError::NoPrompt),
            (Some(m), Some(p)) => Ok((m, p)),
        }
    }
}

/// A number selects the option it counts to from 1: numbers 0 and beyond the last
/// option are refused, an option without a model name gives `ModelUndefined`, one
/// with a name but no prompt gives `NoPrompt`, and otherwise the option's model name
/// and prompt come back.
pub proof fn lemma_selection(opts: Seq<(Option<Seq<char>>, Option<Seq<char>>)>, choice: nat)
    ensures
        (choice == 0 || choice > opts.len()) ==> selection(opts, choice) == Err::<
            (Seq<char>, Seq<char>),
            SelectError,
        >(SelectError::InvalidOption),
        1 <= choice <= opts.len() ==> match opts[choice - 1] {
            (Some(m), Some(p)) => selection(opts, choice) == Ok::<
                (Seq<char>, Seq<char>),
                SelectError,
            >((m, p)),
            (None, _) => selection(opts, choice) == Err::<(Seq<char>, Seq<char>), SelectError>(
                SelectError::ModelUndefined,
            ),
            (Some(_), None) => selection(opts, choice) == Err::<
                (Seq<char>, Seq<char>),
                SelectError,
            >(SelectError::NoPrompt),
        },
{
}

/// The character views of a selection result.
pub open spec fn selection_view(r: Result<(String, String), SelectError>) -> Result<
    (Seq<char>, Seq<char>),
    SelectError,
> {
    match r {
        Ok((m, p)) => Ok((m@, p@)),
        Err(e) => Err(e),
    }
}

/// The model name and system prompt of the option numbered `choice` (counting from 1).
pub fn select_option(options: &Vec<(Option<String>, Option<String>)>, choice: usize) -> (r: Result<
    (String, String),
    SelectError,
>)
    requires
        choice >= 1,
    ensures
        selection_view(r) == selection(option_views(options@), choice as nat),
{
    if choice > options.len() {
        return Err(SelectError::InvalidOption);
    }
    let pair = &options[choice - 1];
    assert(option_views(options@)[choice - 1] == (opt_view(pair.0), opt_view(pair.1)));
    match &pair.0 {
        None => Err(SelectError::ModelUndefined),
        Some(m) => match &pair.1 {
            None => Err(SelectError::NoPrompt),
            Some(p) => Ok((m.clone(), p.clone())),
        },
    }
}

/// Lines `q ..` of the menu are the block of the model of the `k`-th option, in which
/// that option's kind is the `j`-th numbered line, numbered `k + 1`.
pub open spec fn listed_at(cs: Seq<ModelConfig>, k: int, q: int, j: int) -> bool {
    let e = menu_entries(cs)[k];
    let kinds = config_kinds(e.0);
    &&& 0 <= j < kinds.len()
    &&& kinds[j] == e.1
    &&& 0 <= q
    &&& q + kinds.len() + 2 <= menu_of(cs).len()
    &&& menu_of(cs).subrange(q, q + kinds.len() + 2) == config_block(e.0, (k + 1 - j) as nat)
}

/// The number that the menu prints beside an option, typed back by the user, selects
/// that option: for the `k`-th option (from 0) the menu holds the block of its model in
/// which its kind is listed as `[k+1] Label`, reading that number back gives `k + 1`,
/// and the option is the model name and prompt of that entry.
pub proof fn lemma_menu_number_selects(cs: Seq<ModelConfig>, k: int)
    requires
        0 <= k < menu_entries(cs).len(),
        cs.len() <= usize::MAX / 4,
    ensures
        exists|q: int, j: int| #[trigger] listed_at(cs, k, q, j),
        choice_of(decimal((k + 1) as nat)) == k + 1,
        options_of(cs)[k] == entry_option(menu_entries(cs)[k]),
        selection(options_of(cs), (k + 1) as nat) == selection(
            seq![entry_option(menu_entries(cs)[k])],
            1,
        ),
{
    lemma_entries_len(cs);
    lemma_parse_decimal((k + 1) as nat);
    lemma_block_in_menu(cs, k);
}

proof fn lemma_block_in_menu(cs: Seq<ModelConfig>, k: int)
    requires
        0 <= k < menu_entries(cs).len(),
    ensures
        exists|q: int, j: int| #[trigger] listed_at(cs, k, q, j),
    decreases cs.len(),
{
    let init = cs.drop_last();
    let c = cs.last();
    let base = menu_entries(init).len();
    let e = menu_entries(cs)[k];
    let kinds = config_kinds(e.0);
    if k < base {
        lemma_block_in_menu(init, k);
        assert(menu_entries(cs)[k] == menu_entries(init)[k]);
        let (q, j) = choose|q: int, j: int| #[trigger] listed_at(init, k, q, j);
        assert(menu_of(cs).subrange(q, q + kinds.len() + 2) =~= menu_of(init).subrange(
            q,
            q + kinds.len() + 2,
        ));
        assert(listed_at(cs, k, q, j));
    } else {
        let j = k - base;
        assert(e == (c, config_kinds(c)[j]));
        let q = menu_of(init).len() as int;
        let blk = config_block(c, (base + 1) as nat);
        assert(blk.len() == kinds.len() + 2);
        assert(menu_of(cs).subrange(q, q + kinds.len() + 2) =~= blk);
        assert(k + 1 - j == base + 1);
        assert(listed_at(cs, k, q, j));
    }
}

} // verus!
