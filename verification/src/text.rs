//! Character-level text handling: whitespace, trimming, splitting and numbers.
use vstd::prelude::*;

verus! {

/// The Unicode `White_Space` characters, which is what `char::is_whitespace` tests.
pub open spec fn is_white(c: char) -> bool {
    let u = c as u32;
    ||| u == 0x20
    ||| (0x09 <= u && u <= 0x0d)
    ||| u == 0x85
    ||| u == 0xa0
    ||| u == 0x1680
    ||| (0x2000 <= u && u <= 0x200a)
    ||| u == 0x2028
    ||| u == 0x2029
    ||| u == 0x202f
    ||| u == 0x205f
    ||| u == 0x3000
}

/// Whether `c` is a Unicode whitespace character.
pub fn is_whitespace(c: char) -> (r: bool)
    ensures
        r == is_white(c),
{
    let u = c as u32;
    u == 0x20 || (0x09 <= u && u <= 0x0d) || u == 0x85 || u == 0xa0 || u == 0x1680 || (0x2000
        <= u && u <= 0x200a) || u == 0x2028 || u == 0x2029 || u == 0x202f || u == 0x205f || u
        == 0x3000
}

/// The characters of `s`, in order.
pub fn chars_of(s: &str) -> (v: Vec<char>)
    ensures
        v@ == s@,
{
    let mut v: Vec<char> = Vec::new();
    for c in it: s.chars()
        invariant
            v@ == it.seq().take(it.index() as int),
            it.seq() == s@,
    {
        v.push(c);
    }
    v
}


/// Builds a `String` from characters with `Iterator::collect` of std; the contract
/// claims that the string holds exactly those characters, in order.
#[verifier::external_body]
pub(crate) fn string_of(chars: &[char]) -> (s: String)
    ensures
        s@ == chars@,
{
    chars.iter().collect()
}

/// The characters of `v` from `from` up to (not including) `to`.
pub(crate) fn sub_chars(v: &Vec<char>, from: usize, to: usize) -> (r: Vec<char>)
    requires
        from <= to <= v.len(),
    ensures
        r@ == v@.subrange(from as int, to as int),
{
    let mut r: Vec<char> = Vec::new();
    let mut i = from;
    while i < to
        invariant
            from <= i <= to <= v.len(),
            r@ == v@.subrange(from as int, i as int),
        decreases to - i,
    {
        r.push(v[i]);
        i = i + 1;
    }
    r
}

/// `s` without its leading whitespace, as `str::trim_start` leaves it.
pub open spec fn trim_start(s: Seq<char>) -> Seq<char>
    decreases s.len(),
{
    if s.len() > 0 && is_white(s[0]) {
        trim_start(s.drop_first())
    } else {
        s
    }
}

/// `s` without its trailing whitespace, as `str::trim_end` leaves it.
pub open spec fn trim_end(s: Seq<char>) -> Seq<char>
    decreases s.len(),
{
    if s.len() > 0 && is_white(s.last()) {
        trim_end(s.drop_last())
    } else {
        s
    }
}

/// `s` without leading and trailing whitespace, as `str::trim` leaves it.
pub open spec fn trim(s: Seq<char>) -> Seq<char> {
    trim_end(trim_start(s))
}

proof fn lemma_trim_start_at(s: Seq<char>, k: int)
    requires
        0 <= k <= s.len(),
        forall|j: int| 0 <= j < k ==> is_white(#[trigger] s[j]),
        k == s.len() || !is_white(s[k]),
    ensures
        trim_start(s) == s.skip(k),
    decreases k,
{
    if k == 0 {
        assert(s.skip(0) =~= s);
    } else {
        let t = s.drop_first();
        assert forall|j: int| 0 <= j < k - 1 implies is_white(#[trigger] t[j]) by {
            assert(t[j] == s[j + 1]);
        }
        lemma_trim_start_at(t, k - 1);
        assert(t.skip(k - 1) =~= s.skip(k));
    }
}

proof fn lemma_trim_end_at(s: Seq<char>, e: int)
    requires
        0 <= e <= s.len(),
        forall|j: int| e <= j < s.len() ==> is_white(#[trigger] s[j]),
        e == 0 || !is_white(s[e - 1]),
    ensures
        trim_end(s) == s.take(e),
    decreases s.len() - e,
{
    if e == s.len() {
        assert(s.take(e) =~= s);
    } else {
        let t = s.drop_last();
        assert forall|j: int| e <= j < t.len() implies is_white(#[trigger] t[j]) by {
            assert(t[j] == s[j]);
        }
        lemma_trim_end_at(t, e);
        assert(t.take(e) =~= s.take(e));
    }
}

/// Bounds of the part of `v` that trimming keeps.
pub(crate) fn trim_bounds(v: &Vec<char>) -> (r: (usize, usize))
    ensures
        r.0 <= r.1 <= v.len(),
        trim(v@) == v@.subrange(r.0 as int, r.1 as int),
{
    let n = v.len();
    let mut start: usize = 0;
    while start < n && is_whitespace(v[start])
        invariant
            start <= n == v.len(),
            forall|j: int| 0 <= j < start ==> is_white(#[trigger] v@[j]),
        decreases n - start,
    {
        start = start + 1;
    }
    proof {
        lemma_trim_start_at(v@, start as int);
    }
    let mut end: usize = n;
    while end > start && is_whitespace(v[end - 1])
        invariant
            start <= end <= n == v.len(),
            forall|j: int| end <= j < n ==> is_white(#[trigger] v@[j]),
        decreases end,
    {
        end = end - 1;
    }
    proof {
        let t = v@.skip(start as int);
        let e = end - start;
        assert forall|j: int| e <= j < t.len() implies is_white(#[trigger] t[j]) by {
            assert(t[j] == v@[j + start]);
        }
        if e > 0 {
            assert(t[e - 1] == v@[end - 1]);
        }
        lemma_trim_end_at(t, e);
        assert(t.take(e) =~= v@.subrange(start as int, end as int));
        if start < end {
            assert forall|j: int| end <= j < v@.len() implies is_white(#[trigger] v@[j]) by {}
            lemma_trim_end_at(v@, end as int);
        }
    }
    (start, end)
}

/// `s` with leading and trailing whitespace removed (`str::trim`).
pub fn trim_str(s: &str) -> (r: String)
    ensures
        r@ == trim(s@),
{
    let v = chars_of(s);
    let (a, b) = trim_bounds(&v);
    let part = sub_chars(&v, a, b);
    string_of(part.as_slice())
}

/// `s` with trailing whitespace removed (`str::trim_end`).
pub fn trim_end_str(s: &str) -> (r: String)
    ensures
        r@ == trim_end(s@),
{
    let v = chars_of(s);
    let n = v.len();
    let mut end: usize = n;
    while end > 0 && is_whitespace(v[end - 1])
        invariant
            end <= n == v.len(),
            forall|j: int| end <= j < n ==> is_white(#[trigger] v@[j]),
        decreases end,
    {
        end = end - 1;
    }
    proof {
        lemma_trim_end_at(v@, end as int);
    }
    let part = sub_chars(&v, 0, end);
    string_of(part.as_slice())
}


/// The character views of a sequence of strings.
pub open spec fn views(v: Seq<String>) -> Seq<Seq<char>> {
    v.map_values(|t: String| t@)
}

/// Scanning `s` from the left: the words already closed by a whitespace character,
/// and the run of non-whitespace characters at the end of `s`.
pub open spec fn words_scan(s: Seq<char>) -> (Seq<Seq<char>>, Seq<char>)
    decreases s.len(),
{
    if s.len() == 0 {
        (Seq::empty(), Seq::empty())
    } else {
        let (done, cur) = words_scan(s.drop_last());
        if is_white(s.last()) {
            if cur.len() == 0 {
                (done, cur)
            } else {
                (done.push(cur), Seq::empty())
            }
        } else {
            (done, cur.push(s.last()))
        }
    }
}

/// The maximal runs of non-whitespace characters of `s`, in order
/// (what `str::split_whitespace` yields).
pub open spec fn words(s: Seq<char>) -> Seq<Seq<char>> {
    let (done, cur) = words_scan(s);
    if cur.len() == 0 {
        done
    } else {
        done.push(cur)
    }
}

/// Splits `input` into its whitespace-separated words.
pub fn tokenize(input: &str) -> (tokens: Vec<String>)
    ensures
        views(tokens@) == words(input@),
{
    let v = chars_of(input);
    let n = v.len();
    let mut tokens: Vec<String> = Vec::new();
    let mut cur: Vec<char> = Vec::new();
    let mut i: usize = 0;
    while i < n
        invariant
            i <= n == v.len(),
            words_scan(v@.take(i as int)) == (views(tokens@), cur@),
        decreases n - i,
    {
        let c = v[i];
        proof {
            assert(v@.take(i + 1).drop_last() =~= v@.take(i as int));
            assert(v@.take(i + 1).last() == c);
        }
        if is_whitespace(c) {
            if cur.len() > 0 {
                let t = string_of(cur.as_slice());
                tokens.push(t);
                cur = Vec::new();
            }
        } else {
            cur.push(c);
        }
        i = i + 1;
    }
    assert(v@.take(n as int) =~= v@);
    if cur.len() > 0 {
        let t = string_of(cur.as_slice());
        tokens.push(t);
    }
    tokens
}


proof fn lemma_trim_start_parts(s: Seq<char>)
    ensures
        s.len() >= trim_start(s).len(),
        trim_start(s) == s.skip(s.len() - trim_start(s).len()),
        forall|j: int| 0 <= j < s.len() - trim_start(s).len() ==> is_white(#[trigger] s[j]),
        trim_start(s).len() > 0 ==> !is_white(trim_start(s)[0]),
    decreases s.len(),
{
    if s.len() > 0 && is_white(s[0]) {
        let t = s.drop_first();
        lemma_trim_start_parts(t);
        assert(t.skip(t.len() - trim_start(t).len()) =~= s.skip(s.len() - trim_start(s).len()));
        assert forall|j: int| 0 <= j < s.len() - trim_start(s).len() implies is_white(
            #[trigger] s[j],
        ) by {
            if j > 0 {
                assert(s[j] == t[j - 1]);
            }
        }
    } else {
        assert(s.skip(0) =~= s);
    }
}

proof fn lemma_trim_end_parts(s: Seq<char>)
    ensures
        s.len() >= trim_end(s).len(),
        trim_end(s) == s.take(trim_end(s).len() as int),
        forall|j: int| trim_end(s).len() <= j < s.len() ==> is_white(#[trigger] s[j]),
        trim_end(s).len() > 0 ==> !is_white(trim_end(s).last()),
    decreases s.len(),
{
    if s.len() > 0 && is_white(s.last()) {
        let t = s.drop_last();
        lemma_trim_end_parts(t);
        assert(t.take(trim_end(t).len() as int) =~= s.take(trim_end(s).len() as int));
        assert forall|j: int| trim_end(s).len() <= j < s.len() implies is_white(#[trigger] s[j]) by {
            if j < t.len() {
                assert(s[j] == t[j]);
            }
        }
    } else {
        assert(s.take(s.len() as int) =~= s);
    }
}

/// Trimming cuts off whitespace only, and all of it at both ends: the text is some
/// whitespace, then the trimmed text, then more whitespace, and the trimmed text
/// neither starts nor ends with whitespace.
pub proof fn lemma_trim_parts(s: Seq<char>)
    ensures
        exists|i: int|
            0 <= i && i + trim(s).len() <= s.len() && #[trigger] s.subrange(i, i + trim(s).len())
                == trim(s) && (forall|j: int| 0 <= j < i ==> is_white(#[trigger] s[j])) && (
            forall|j: int| i + trim(s).len() <= j < s.len() ==> is_white(#[trigger] s[j])),
        trim(s).len() > 0 ==> !is_white(trim(s)[0]) && !is_white(trim(s).last()),
        trim_end(s) == s.take(trim_end(s).len() as int),
        forall|j: int| trim_end(s).len() <= j < s.len() ==> is_white(#[trigger] s[j]),
        trim_end(s).len() > 0 ==> !is_white(trim_end(s).last()),
{
    lemma_trim_start_parts(s);
    lemma_trim_end_parts(s);
    let t = trim_start(s);
    lemma_trim_end_parts(t);
    let i = s.len() - t.len();
    let m = trim(s).len();
    assert(s.subrange(i, i + m) =~= trim(s)) by {
        assert forall|k: int| 0 <= k < m implies s.subrange(i, i + m)[k] == trim(s)[k] by {
            assert(trim(s)[k] == t[k]);
            assert(t[k] == s[i + k]);
        }
    }
    assert forall|j: int| i + m <= j < s.len() implies is_white(#[trigger] s[j]) by {
        assert(s[j] == t[j - i]);
    }
    if m > 0 {
        assert(trim(s)[0] == t[0]);
    }
}

/// A non-empty run of characters none of which is whitespace.
pub open spec fn is_word(w: Seq<char>) -> bool {
    w.len() > 0 && forall|j: int| 0 <= j < w.len() ==> !is_white(#[trigger] w[j])
}

/// The strings of `ws` joined with `sep` between each two of them.
pub open spec fn join_with(ws: Seq<Seq<char>>, sep: Seq<char>) -> Seq<char>
    decreases ws.len(),
{
    if ws.len() == 0 {
        Seq::empty()
    } else if ws.len() == 1 {
        ws[0]
    } else {
        join_with(ws.drop_last(), sep) + sep + ws.last()
    }
}

proof fn lemma_scan_shape(s: Seq<char>)
    ensures
        forall|i: int| 0 <= i < words_scan(s).0.len() ==> is_word(#[trigger] words_scan(s).0[i]),
        forall|j: int|
            0 <= j < words_scan(s).1.len() ==> !is_white(#[trigger] words_scan(s).1[j]),
    decreases s.len(),
{
    if s.len() > 0 {
        lemma_scan_shape(s.drop_last());
        let (done, cur) = words_scan(s.drop_last());
        if !is_white(s.last()) {
            assert forall|j: int| 0 <= j < cur.push(s.last()).len() implies !is_white(
                #[trigger] cur.push(s.last())[j],
            ) by {
                if j < cur.len() {
                    assert(cur.push(s.last())[j] == cur[j]);
                }
            }
        }
    }
}

/// Every token is a non-empty run of non-whitespace characters.
pub proof fn lemma_words_are_words(s: Seq<char>)
    ensures
        forall|i: int| 0 <= i < words(s).len() ==> is_word(#[trigger] words(s)[i]),
{
    lemma_scan_shape(s);
}

proof fn lemma_scan_append_word_chars(a: Seq<char>, b: Seq<char>)
    requires
        forall|j: int| 0 <= j < b.len() ==> !is_white(#[trigger] b[j]),
    ensures
        words_scan(a + b) == (words_scan(a).0, words_scan(a).1 + b),
    decreases b.len(),
{
    if b.len() == 0 {
        assert(a + b =~= a);
        assert(words_scan(a).1 + b =~= words_scan(a).1);
    } else {
        let b0 = b.drop_last();
        assert forall|j: int| 0 <= j < b0.len() implies !is_white(#[trigger] b0[j]) by {
            assert(b0[j] == b[j]);
        }
        lemma_scan_append_word_chars(a, b0);
        assert((a + b).drop_last() =~= a + b0);
        assert((a + b).last() == b.last());
        assert(!is_white(b[b.len() - 1]));
        assert((words_scan(a).1 + b0).push(b.last()) =~= words_scan(a).1 + b);
    }
}

proof fn lemma_scan_join(ws: Seq<Seq<char>>)
    requires
        ws.len() > 0,
        forall|i: int| 0 <= i < ws.len() ==> is_word(#[trigger] ws[i]),
    ensures
        words_scan(join_with(ws, seq![' '])) == (ws.drop_last(), ws.last()),
    decreases ws.len(),
{
    let e: Seq<char> = Seq::empty();
    assert(is_word(ws[ws.len() - 1]));
    if ws.len() == 1 {
        lemma_scan_append_word_chars(e, ws[0]);
        assert(e + ws[0] =~= ws[0]);
        assert(ws.drop_last() =~= Seq::<Seq<char>>::empty());
    } else {
        let init = ws.drop_last();
        assert forall|i: int| 0 <= i < init.len() implies is_word(#[trigger] init[i]) by {
            assert(init[i] == ws[i]);
        }
        lemma_scan_join(init);
        let j0 = join_with(init, seq![' ']);
        let j1 = j0 + seq![' '];
        assert(j1.drop_last() =~= j0);
        assert(j1.last() == ' ');
        assert(is_white(' '));
        assert(is_word(init[init.len() - 1]));
        assert(words_scan(j1) == (init.drop_last().push(init.last()), e));
        assert(init.drop_last().push(init.last()) =~= init);
        lemma_scan_append_word_chars(j1, ws.last());
        assert(e + ws.last() =~= ws.last());
    }
}

/// Joining the tokens of a text with single spaces and splitting the result again gives
/// back the same tokens.
pub proof fn lemma_words_join_words(s: Seq<char>)
    ensures
        words(join_with(words(s), seq![' '])) == words(s),
{
    let ws = words(s);
    lemma_words_are_words(s);
    if ws.len() == 0 {
        assert(join_with(ws, seq![' ']) =~= Seq::<char>::empty());
    } else {
        lemma_scan_join(ws);
        assert(ws.drop_last().push(ws.last()) =~= ws);
    }
}


proof fn lemma_scan_then_white(x: Seq<char>, w: Seq<char>)
    requires
        w.len() > 0,
        forall|i: int| 0 <= i < w.len() ==> is_white(#[trigger] w[i]),
    ensures
        words_scan(x + w) == (words(x), Seq::<char>::empty()),
    decreases w.len(),
{
    let w2 = w.drop_last();
    assert((x + w).drop_last() =~= x + w2);
    assert((x + w).last() == w[w.len() - 1]);
    if w2.len() == 0 {
        assert(x + w2 =~= x);
    } else {
        assert forall|i: int| 0 <= i < w2.len() implies is_white(#[trigger] w2[i]) by {
            assert(w2[i] == w[i]);
        }
        lemma_scan_then_white(x, w2);
    }
}

proof fn lemma_scan_after_break(p: Seq<char>, b: Seq<char>)
    requires
        words_scan(p).1.len() == 0,
    ensures
        words_scan(p + b) == (words_scan(p).0 + words_scan(b).0, words_scan(b).1),
    decreases b.len(),
{
    if b.len() == 0 {
        assert(p + b =~= p);
        assert(words_scan(p).0 + Seq::<Seq<char>>::empty() =~= words_scan(p).0);
        assert(words_scan(p).1 =~= Seq::<char>::empty());
    } else {
        let b2 = b.drop_last();
        lemma_scan_after_break(p, b2);
        assert((p + b).drop_last() =~= p + b2);
        assert((p + b).last() == b.last());
        let d = words_scan(p).0;
        let (d2, c2) = words_scan(b2);
        assert((d + d2).push(c2) =~= d + d2.push(c2));
    }
}

/// Text joined by whitespace splits into the tokens of each part: the tokens of
/// `a + ws + b`, for a non-empty run `ws` of whitespace, are those of `a` followed by
/// those of `b`.
pub proof fn lemma_words_concat(a: Seq<char>, ws: Seq<char>, b: Seq<char>)
    requires
        ws.len() > 0,
        forall|i: int| 0 <= i < ws.len() ==> is_white(#[trigger] ws[i]),
    ensures
        words(a + ws + b) == words(a) + words(b),
{
    lemma_scan_then_white(a, ws);
    lemma_scan_after_break(a + ws, b);
    let (d, c) = words_scan(b);
    assert((words(a) + d).push(c) =~= words(a) + d.push(c));
}

/// Whether two strings hold the same characters.
pub fn str_eq(a: &str, b: &str) -> (r: bool)
    ensures
        r == (a@ == b@),
{
    let va = chars_of(a);
    let vb = chars_of(b);
    if va.len() != vb.len() {
        return false;
    }
    let n = va.len();
    let mut i: usize = 0;
    while i < n
        invariant
            i <= n == va.len() == vb.len(),
            va@ == a@,
            vb@ == b@,
            forall|j: int| 0 <= j < i ==> va@[j] == vb@[j],
        decreases n - i,
    {
        if va[i] != vb[i] {
            return false;
        }
        i = i + 1;
    }
    assert(va@ =~= vb@);
    true
}

/// Whether `c` is one of the ASCII capitals `A`..=`Z`.
pub open spec fn is_ascii_upper(c: char) -> bool {
    65 <= (c as u32) && (c as u32) <= 90
}

/// Whether `c` is `p` or, for a lower-case ASCII letter `p`, its capital.
pub open spec fn char_matches_lower(c: char, p: char) -> bool {
    c == p || (is_ascii_upper(c) && (c as u32) + 32 == (p as u32))
}

/// Whether `s` begins with `pat` when ASCII capitals in `s` are read as lower case.
///
/// For a pattern of lower-case ASCII letters and punctuation without `k` this is what
/// `s.to_lowercase().starts_with(pat)` decides: the only characters whose lower case
/// begins with such a character are that character and its ASCII capital (U+0130
/// lowers to `i` followed by U+0307, which no such pattern continues with).
pub open spec fn starts_with_lower(s: Seq<char>, pat: Seq<char>) -> bool {
    pat.len() <= s.len() && forall|j: int| 0 <= j < pat.len() ==> char_matches_lower(#[trigger] s[j], pat[j])
}

/// Whether `s` is `pat` when ASCII capitals in `s` are read as lower case
/// (for the patterns used here, `s.to_lowercase() == pat`).
pub open spec fn equals_lower(s: Seq<char>, pat: Seq<char>) -> bool {
    s.len() == pat.len() && starts_with_lower(s, pat)
}

/// Decides [`starts_with_lower`].
pub fn starts_with_lower_str(s: &str, pat: &str) -> (r: bool)
    ensures
        r == starts_with_lower(s@, pat@),
{
    let vs = chars_of(s);
    let vp = chars_of(pat);
    if vp.len() > vs.len() {
        return false;
    }
    let n = vp.len();
    let mut i: usize = 0;
    while i < n
        invariant
            i <= n == vp.len() <= vs.len(),
            vs@ == s@,
            vp@ == pat@,
            forall|j: int| 0 <= j < i ==> char_matches_lower(#[trigger] vs@[j], vp@[j]),
        decreases n - i,
    {
        let c = vs[i];
        let p = vp[i];
        let cu = c as u32;
        let pu = p as u32;
        if !(c == p || (65 <= cu && cu <= 90 && cu + 32 == pu)) {
            return false;
        }
        i = i + 1;
    }
    true
}

/// Decides [`equals_lower`].
pub fn equals_lower_str(s: &str, pat: &str) -> (r: bool)
    ensures
        r == equals_lower(s@, pat@),
{
    let ls = s.unicode_len();
    let lp = pat.unicode_len();
    ls == lp && starts_with_lower_str(s, pat)
}


/// `r` with `x` put in front of its first piece.
pub open spec fn prefix_first(x: Seq<char>, r: Seq<Seq<char>>) -> Seq<Seq<char>> {
    r.update(0, x + r[0])
}

/// The pieces of `s` between the occurrences of `sep`, found from the left without
/// overlap (what `str::split` yields for a non-empty separator).
pub open spec fn split_on(s: Seq<char>, sep: Seq<char>) -> Seq<Seq<char>>
    decreases s.len(),
{
    if sep.len() == 0 || s.len() < sep.len() {
        seq![s]
    } else if s.take(sep.len() as int) == sep {
        seq![Seq::<char>::empty()] + split_on(s.skip(sep.len() as int), sep)
    } else {
        prefix_first(seq![s[0]], split_on(s.drop_first(), sep))
    }
}

/// A split always yields at least one piece.
pub proof fn lemma_split_nonempty(s: Seq<char>, sep: Seq<char>)
    ensures
        split_on(s, sep).len() >= 1,
    decreases s.len(),
{
    if sep.len() == 0 || s.len() < sep.len() {
    } else if s.take(sep.len() as int) == sep {
        lemma_split_nonempty(s.skip(sep.len() as int), sep);
    } else {
        lemma_split_nonempty(s.drop_first(), sep);
    }
}

fn matches_at(v: &Vec<char>, i: usize, p: &Vec<char>) -> (r: bool)
    requires
        i <= v.len(),
    ensures
        r == (p.len() <= v.len() - i && v@.skip(i as int).take(p.len() as int) == p@),
{
    if p.len() > v.len() - i {
        return false;
    }
    let m = p.len();
    let mut j: usize = 0;
    while j < m
        invariant
            j <= m == p.len() <= v.len() - i,
            forall|k: int| 0 <= k < j ==> v@[i + k] == p@[k],
        decreases m - j,
    {
        if v[i + j] != p[j] {
            assert(v@.skip(i as int).take(m as int)[j as int] != p@[j as int]);
            return false;
        }
        j = j + 1;
    }
    assert(v@.skip(i as int).take(m as int) =~= p@);
    true
}

/// The pieces of `s` between the occurrences of `sep` (`s.split(sep)`).
pub fn split_str(s: &str, sep: &str) -> (pieces: Vec<String>)
    requires
        sep@.len() > 0,
    ensures
        views(pieces@) == split_on(s@, sep@),
{
    let v = chars_of(s);
    let p = chars_of(sep);
    let n = v.len();
    let m = p.len();
    let mut pieces: Vec<String> = Vec::new();
    let mut cur: Vec<char> = Vec::new();
    let mut i: usize = 0;
    assert(v@.skip(0) =~= v@);
    proof {
        lemma_split_nonempty(v@, p@);
        assert(prefix_first(cur@, split_on(v@, p@)) =~= split_on(v@, p@));
        assert(views(pieces@) + split_on(v@, p@) =~= split_on(v@, p@));
    }
    while i < n
        invariant
            i <= n == v.len(),
            m == p.len() > 0,
            v@ == s@,
            p@ == sep@,
            split_on(s@, sep@) == views(pieces@) + prefix_first(
                cur@,
                split_on(v@.skip(i as int), p@),
            ),
        decreases n - i,
    {
        let ghost rest = v@.skip(i as int);
        let ghost before = views(pieces@);
        proof {
            lemma_split_nonempty(rest, p@);
        }
        if matches_at(&v, i, &p) {
            let ghost oc = cur@;
            let t = string_of(cur.as_slice());
            pieces.push(t);
            cur = Vec::new();
            proof {
                let next = v@.skip(i + m);
                assert(rest.skip(m as int) =~= next);
                lemma_split_nonempty(next, p@);
                assert(split_on(rest, p@) == seq![Seq::<char>::empty()] + split_on(next, p@));
                assert(prefix_first(cur@, split_on(next, p@)) =~= split_on(next, p@));
                assert(views(pieces@) =~= before.push(t@));
                assert(before + prefix_first(oc, split_on(rest, p@)) =~= views(pieces@)
                    + split_on(next, p@));
            }
            i = i + m;
        } else {
            let c = v[i];
            let ghost old_cur = cur@;
            cur.push(c);
            proof {
                let next = v@.skip(i + 1);
                assert(rest.drop_first() =~= next);
                lemma_split_nonempty(next, p@);
                assert(rest[0] == c);
                assert(old_cur + rest =~= cur@ + next);
                if rest.len() < p@.len() {
                    assert(split_on(rest, p@) == seq![rest]);
                    assert(split_on(next, p@) == seq![next]);
                    assert(prefix_first(old_cur, split_on(rest, p@)) =~= prefix_first(
                        cur@,
                        split_on(next, p@),
                    ));
                } else {
                    let r = split_on(next, p@);
                    assert(split_on(rest, p@) == prefix_first(seq![c], r));
                    assert(prefix_first(seq![c], r)[0] == seq![c] + r[0]);
                    assert(old_cur + (seq![c] + r[0]) =~= cur@ + r[0]);
                    assert(prefix_first(old_cur, split_on(rest, p@)) =~= prefix_first(
                        cur@,
                        split_on(next, p@),
                    ));
                }
            }
            i = i + 1;
        }
    }
    proof {
        let rest = v@.skip(i as int);
        assert(rest =~= Seq::<char>::empty());
        assert(split_on(rest, p@) == seq![rest]);
    }
    let t = string_of(cur.as_slice());
    pieces.push(t);
    proof {
        let rest = v@.skip(i as int);
        assert(prefix_first(cur@, seq![rest]) =~= seq![t@]);
    }
    assert(views(pieces@) =~= split_on(s@, sep@));
    pieces
}

proof fn lemma_join_cons(a: Seq<char>, r: Seq<Seq<char>>, sep: Seq<char>)
    requires
        r.len() >= 1,
    ensures
        join_with(seq![a] + r, sep) == a + sep + join_with(r, sep),
    decreases r.len(),
{
    let ar = seq![a] + r;
    if r.len() == 1 {
        assert(ar.drop_last() =~= seq![a]);
        assert(join_with(seq![a], sep) == a);
        assert(ar.last() == r[0]);
    } else {
        lemma_join_cons(a, r.drop_last(), sep);
        assert(ar.drop_last() =~= seq![a] + r.drop_last());
        assert(ar.last() == r.last());
        assert(join_with(ar, sep) == join_with(ar.drop_last(), sep) + sep + ar.last());
        assert(join_with(ar, sep) =~= a + sep + (join_with(r.drop_last(), sep) + sep + r.last()));
    }
}

proof fn lemma_join_prefix_first(x: Seq<char>, r: Seq<Seq<char>>, sep: Seq<char>)
    requires
        r.len() >= 1,
    ensures
        join_with(prefix_first(x, r), sep) == x + join_with(r, sep),
    decreases r.len(),
{
    let pr = prefix_first(x, r);
    if r.len() == 1 {
        assert(x + r[0] =~= x + join_with(r, sep));
    } else {
        lemma_join_prefix_first(x, r.drop_last(), sep);
        assert(pr.drop_last() =~= prefix_first(x, r.drop_last()));
        assert(pr.last() == r.last());
    }
}

/// Splitting at a character that does not occur gives the text as one piece.
pub proof fn lemma_split_absent_char(s: Seq<char>, c: char)
    requires
        forall|i: int| 0 <= i < s.len() ==> #[trigger] s[i] != c,
    ensures
        split_on(s, seq![c]) == seq![s],
    decreases s.len(),
{
    if s.len() >= 1 {
        let t = s.drop_first();
        assert forall|i: int| 0 <= i < t.len() implies #[trigger] t[i] != c by {
            assert(t[i] == s[i + 1]);
        }
        lemma_split_absent_char(t, c);
        assert(s.take(1)[0] == s[0]);
        assert(s.take(1) != seq![c]);
        assert(seq![s[0]] + t =~= s);
        assert(prefix_first(seq![s[0]], seq![t]) =~= seq![s]);
    }
}

/// The last piece of a split at a single character is the last piece of what follows
/// the last occurrence, wherever more text stands before it.
pub proof fn lemma_split_last_char(a: Seq<char>, x: Seq<char>, c: char)
    ensures
        split_on(a + seq![c] + x, seq![c]).len() >= 2,
        split_on(a + seq![c] + x, seq![c]).last() == split_on(x, seq![c]).last(),
    decreases a.len(),
{
    let sep = seq![c];
    let s = a + sep + x;
    lemma_split_nonempty(x, sep);
    if a.len() == 0 {
        assert(s =~= sep + x);
        assert(s.take(1) =~= sep);
        assert(s.skip(1) =~= x);
    } else {
        let a2 = a.drop_first();
        lemma_split_last_char(a2, x, c);
        assert(s.drop_first() =~= a2 + sep + x);
        if s.take(1) == sep {
            assert(s.skip(1) =~= a2 + sep + x);
        } else {
            let r = split_on(a2 + sep + x, sep);
            assert(prefix_first(seq![s[0]], r).last() == r.last());
        }
    }
}

/// Splitting at a doubled character that never occurs doubled gives the text as one
/// piece.
pub proof fn lemma_split_absent_pair(s: Seq<char>, c: char)
    requires
        forall|i: int| 0 <= i < s.len() - 1 ==> !(#[trigger] s[i] == c && s[i + 1] == c),
    ensures
        split_on(s, seq![c, c]) == seq![s],
    decreases s.len(),
{
    if s.len() >= 2 {
        let t = s.drop_first();
        assert forall|i: int| 0 <= i < t.len() - 1 implies !(#[trigger] t[i] == c && t[i + 1]
            == c) by {
            assert(t[i] == s[i + 1]);
            assert(t[i + 1] == s[i + 2]);
        }
        lemma_split_absent_pair(t, c);
        assert(!(s[0] == c && s[1] == c));
        assert(s.take(2)[0] == s[0] && s.take(2)[1] == s[1]);
        assert(s.take(2) != seq![c, c]);
        assert(seq![s[0]] + t =~= s);
        assert(prefix_first(seq![s[0]], seq![t]) =~= seq![s]);
    } else if s.len() == 1 {
    }
}

/// Before the first doubled separator character: when `x` holds no doubled `c` and
/// does not end in `c`, the first piece of `x + cc + t` split at `cc` is `x`.
pub proof fn lemma_split_first_pair(x: Seq<char>, t: Seq<char>, c: char)
    requires
        forall|i: int| 0 <= i < x.len() - 1 ==> !(#[trigger] x[i] == c && x[i + 1] == c),
        x.len() == 0 || x.last() != c,
    ensures
        split_on(x + seq![c, c] + t, seq![c, c])[0] == x,
    decreases x.len(),
{
    let sep = seq![c, c];
    let s = x + sep + t;
    if x.len() == 0 {
        assert(s =~= sep + t);
        assert(s.take(2) =~= sep);
    } else {
        let x2 = x.drop_first();
        assert forall|i: int| 0 <= i < x2.len() - 1 implies !(#[trigger] x2[i] == c && x2[i + 1]
            == c) by {
            assert(x2[i] == x[i + 1]);
            assert(x2[i + 1] == x[i + 2]);
        }
        if x2.len() > 0 {
            assert(x2.last() == x.last());
        }
        lemma_split_first_pair(x2, t, c);
        assert(s.drop_first() =~= x2 + sep + t);
        if x.len() == 1 {
            assert(s[0] == x[0] && x[0] != c);
        } else {
            assert(s[0] == x[0] && s[1] == x[1]);
            assert(!(x[0] == c && x[1] == c));
        }
        assert(s.take(2)[0] == s[0] && s.take(2)[1] == s[1]);
        assert(s.take(2) != sep);
        lemma_split_nonempty(x2 + sep + t, sep);
        let r = split_on(x2 + sep + t, sep);
        assert(prefix_first(seq![s[0]], r)[0] == seq![s[0]] + r[0]);
        assert(seq![x[0]] + x2 =~= x);
    }
}

/// Putting the separator back between the pieces of a split gives back the text.
pub proof fn lemma_split_join(s: Seq<char>, sep: Seq<char>)
    requires
        sep.len() > 0,
    ensures
        join_with(split_on(s, sep), sep) == s,
    decreases s.len(),
{
    if s.len() < sep.len() {
    } else if s.take(sep.len() as int) == sep {
        let rest = s.skip(sep.len() as int);
        lemma_split_join(rest, sep);
        lemma_split_nonempty(rest, sep);
        lemma_join_cons(Seq::empty(), split_on(rest, sep), sep);
        assert(s =~= Seq::<char>::empty() + sep + rest);
    } else {
        let rest = s.drop_first();
        lemma_split_join(rest, sep);
        lemma_split_nonempty(rest, sep);
        lemma_join_prefix_first(seq![s[0]], split_on(rest, sep), sep);
        assert(s =~= seq![s[0]] + rest);
    }
}

} // verus!
