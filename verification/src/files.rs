//! Where the conversation is kept: the history file, the name of the transcript
//! file (unique within the directory), and the transcript document itself.
use vstd::prelude::*;
use crate::number::{decimal, decimal_string, digits_value, is_digit, lemma_decimal_shape};
use crate::text::{
    lemma_split_absent_char, lemma_split_absent_pair, lemma_split_first_pair,
    lemma_split_last_char, split_on, split_str, str_eq, views,
};

verus! {

/// The error type of `std::io`, carried opaquely in the history path's result.
#[verifier::external_type_specification]
#[verifier::external_body]
pub struct ExIoError(std::io::Error);

/// The history file of directory `curr_path`: `curr_path/_history.json`.
pub open spec fn history_path(curr_path: Seq<char>) -> Seq<char> {
    curr_path + "/_history.json"@
}

/// The path of the file that keeps the messages of the last conversation.
pub fn history_filename(curr_path: &str) -> (r: std::io::Result<String>)
    ensures
        r matches Ok(s) && s@ == history_path(curr_path@),
{
    let mut s = curr_path.to_owned();
    s.append("/_history.json");
    Ok(s)
}

/// The part of a file name before its first `--` (the whole name when it has none).
pub open spec fn stamp_part(name: Seq<char>) -> Seq<char> {
    split_on(name, "--"@)[0]
}

/// The part of a path after its last `/`.
pub open spec fn last_component(path: Seq<char>) -> Seq<char> {
    split_on(path, "/"@).last()
}

/// Going through the directory entries in order: the base name reached so far and
/// the counter for the next clash. An entry clashes when its part before `--` is
/// the current base name's; each clash moves the base name to `dir/stamp_N` with the
/// next counter value `N`.
pub open spec fn unique_scan(dir: Seq<char>, stamp: Seq<char>, entries: Seq<Seq<char>>) -> (
    Seq<char>,
    nat,
)
    decreases entries.len(),
{
    if entries.len() == 0 {
        (dir + "/"@ + stamp, 1)
    } else {
        let (base, counter) = unique_scan(dir, stamp, entries.drop_last());
        if stamp_part(entries.last()) == stamp_part(last_component(base)) {
            (dir + "/"@ + stamp + "_"@ + decimal(counter), counter + 1)
        } else {
            (base, counter)
        }
    }
}

/// The base name (without extension) for a new transcript in `dir`, stamped `stamp`,
/// given the names of the entries in `dir`.
pub open spec fn unique_name(dir: Seq<char>, stamp: Seq<char>, entries: Seq<Seq<char>>) -> Seq<
    char,
> {
    unique_scan(dir, stamp, entries).0
}

proof fn lemma_scan_counter(dir: Seq<char>, stamp: Seq<char>, entries: Seq<Seq<char>>)
    ensures
        1 <= unique_scan(dir, stamp, entries).1 <= entries.len() + 1,
    decreases entries.len(),
{
    if entries.len() > 0 {
        lemma_scan_counter(dir, stamp, entries.drop_last());
    }
}

/// Computes [`unique_name`] for the given stamp and directory entries.
pub fn base_filename(curr_path: &str, stamp: &str, entries: &Vec<String>) -> (r: String)
    requires
        entries.len() < usize::MAX,
    ensures
        r@ == unique_name(curr_path@, stamp@, views(entries@)),
{
    let mut base = curr_path.to_owned();
    base.append("/");
    base.append(stamp);
    let mut counter: usize = 1;
    let n = entries.len();
    let mut i: usize = 0;
    while i < n
        invariant
            i <= n == entries.len(),
            (base@, counter as nat) == unique_scan(curr_path@, stamp@, views(entries@).take(i as int)),
            counter <= i + 1,
            n < usize::MAX,
        decreases n - i,
    {
        let name = &entries[i];
        proof {
            reveal_strlit("--");
            reveal_strlit("/");
            let vs = views(entries@);
            assert(vs.take(i + 1).drop_last() =~= vs.take(i as int));
            assert(vs.take(i + 1).last() == name@);
        }
        let entry_parts = split_str(name.as_str(), "--");
        let path_parts = split_str(base.as_str(), "/");
        proof {
            crate::text::lemma_split_nonempty(name@, "--"@);
            crate::text::lemma_split_nonempty(base@, "/"@);
        }
        let last = &path_parts[path_parts.len() - 1];
        let last_parts = split_str(last.as_str(), "--");
        proof {
            crate::text::lemma_split_nonempty(last@, "--"@);
            assert(views(path_parts@).last() == last@);
        }
        if str_eq(entry_parts[0].as_str(), last_parts[0].as_str()) {
            let mut next = curr_path.to_owned();
            next.append("/");
            next.append(stamp);
            next.append("_");
            let num = decimal_string(counter);
            next.append(num.as_str());
            base = next;
            counter = counter + 1;
        }
        i = i + 1;
    }
    assert(views(entries@).take(n as int) =~= views(entries@));
    base
}

/// The base name is always `dir/stamp`, or `dir/stamp_N` with `N` between 1 and the
/// number of directory entries.
pub proof fn lemma_unique_name_shape(dir: Seq<char>, stamp: Seq<char>, entries: Seq<Seq<char>>)
    ensures
        unique_name(dir, stamp, entries) == dir + "/"@ + stamp || exists|k: nat|
            1 <= k <= entries.len() && unique_name(dir, stamp, entries) == dir + "/"@ + stamp
                + "_"@ + #[trigger] decimal(k),
    decreases entries.len(),
{
    if entries.len() > 0 {
        let init = entries.drop_last();
        lemma_unique_name_shape(dir, stamp, init);
        lemma_scan_counter(dir, stamp, init);
        let (base, counter) = unique_scan(dir, stamp, init);
        if stamp_part(entries.last()) == stamp_part(last_component(base)) {
            assert(unique_name(dir, stamp, entries) == dir + "/"@ + stamp + "_"@ + decimal(
                counter,
            ));
        } else if base != dir + "/"@ + stamp {
            let k = choose|k: nat|
                1 <= k <= init.len() && base == dir + "/"@ + stamp + "_"@ + #[trigger] decimal(k);
            assert(1 <= k <= entries.len());
        }
    }
}

/// A character of a file-name stamp: a digit, a sign, `-` or `_`.
pub open spec fn stamp_char(c: char) -> bool {
    is_digit(c) || c == '+' || c == '-' || c == '_'
}

/// The shape of a `%Y-%m-%d_%H%M` stamp: it starts with a digit or a sign, holds only
/// digits, signs, `-` and `_`, never two `-` in a row, and ends with a digit.
pub open spec fn file_stamp_shape(s: Seq<char>) -> bool {
    &&& s.len() > 0
    &&& (is_digit(s[0]) || s[0] == '+' || s[0] == '-')
    &&& forall|i: int| 0 <= i < s.len() ==> stamp_char(#[trigger] s[i])
    &&& forall|i: int| 0 <= i < s.len() - 1 ==> !(#[trigger] s[i] == '-' && s[i + 1] == '-')
    &&& is_digit(s.last())
}

/// The `k`-th name for a stamp: the stamp itself, then `stamp_1`, `stamp_2`, ...
pub open spec fn name_variant(stamp: Seq<char>, k: nat) -> Seq<char> {
    if k == 0 {
        stamp
    } else {
        stamp + "_"@ + decimal(k)
    }
}

proof fn lemma_variant_shape(stamp: Seq<char>, k: nat)
    requires
        file_stamp_shape(stamp),
    ensures
        name_variant(stamp, k).len() > 0,
        name_variant(stamp, k)[0] == stamp[0],
        forall|i: int| 0 <= i < name_variant(stamp, k).len() ==> #[trigger] name_variant(stamp, k)[i] != '/',
        forall|i: int|
            0 <= i < name_variant(stamp, k).len() - 1 ==> !(#[trigger] name_variant(stamp, k)[i]
                == '-' && name_variant(stamp, k)[i + 1] == '-'),
        name_variant(stamp, k).last() != '-',
{
    reveal_strlit("_");
    let v = name_variant(stamp, k);
    assert(stamp_char(stamp[0]));
    if k == 0 {
        assert forall|i: int| 0 <= i < v.len() implies #[trigger] v[i] != '/' by {
            assert(stamp_char(stamp[i]));
        }
    } else {
        lemma_decimal_shape(k);
        let d = decimal(k);
        let n = stamp.len() as int;
        assert(v[0] == stamp[0]);
        assert(v[n] == '_');
        assert forall|i: int| 0 <= i < v.len() implies #[trigger] v[i] != '/' by {
            if i < n {
                assert(stamp_char(stamp[i]));
            } else if i > n {
                assert(v[i] == d[i - n - 1]);
                assert(is_digit(d[i - n - 1]));
            }
        }
        assert forall|i: int| 0 <= i < v.len() - 1 implies !(#[trigger] v[i] == '-' && v[i + 1]
            == '-') by {
            if i < n - 1 {
                assert(v[i] == stamp[i] && v[i + 1] == stamp[i + 1]);
            } else if i > n {
                assert(v[i] == d[i - n - 1]);
                assert(is_digit(d[i - n - 1]));
            }
        }
        assert(v.last() == d.last());
        assert(is_digit(d[d.len() - 1]));
    }
}

proof fn lemma_variant_parts(dir: Seq<char>, v: Seq<char>, t: Seq<char>)
    requires
        v.len() > 0,
        forall|i: int| 0 <= i < v.len() ==> #[trigger] v[i] != '/',
        forall|i: int| 0 <= i < v.len() - 1 ==> !(#[trigger] v[i] == '-' && v[i + 1] == '-'),
        v.last() != '-',
    ensures
        last_component(dir + "/"@ + v) == v,
        stamp_part(v) == v,
        stamp_part(v + "--"@ + t) == v,
{
    reveal_strlit("/");
    reveal_strlit("--");
    assert("/"@ =~= seq!['/']);
    assert("--"@ =~= seq!['-', '-']);
    lemma_split_last_char(dir, v, '/');
    lemma_split_absent_char(v, '/');
    lemma_split_absent_pair(v, '-');
    lemma_split_first_pair(v, t, '-');
}

proof fn lemma_scan_base(dir: Seq<char>, stamp: Seq<char>, entries: Seq<Seq<char>>)
    requires
        file_stamp_shape(stamp),
    ensures
        unique_scan(dir, stamp, entries).1 >= 1,
        unique_scan(dir, stamp, entries).0 == dir + "/"@ + name_variant(
            stamp,
            (unique_scan(dir, stamp, entries).1 - 1) as nat,
        ),
    decreases entries.len(),
{
    if entries.len() > 0 {
        lemma_scan_base(dir, stamp, entries.drop_last());
        let (base, counter) = unique_scan(dir, stamp, entries.drop_last());
        assert(dir + "/"@ + stamp + "_"@ + decimal(counter) =~= dir + "/"@ + name_variant(
            stamp,
            counter,
        ));
    }
}

proof fn lemma_scan_clash(dir: Seq<char>, stamp: Seq<char>, entries: Seq<Seq<char>>)
    requires
        file_stamp_shape(stamp),
    ensures
        stamp_part(last_component(unique_scan(dir, stamp, entries).0)) == name_variant(
            stamp,
            (unique_scan(dir, stamp, entries).1 - 1) as nat,
        ),
{
    lemma_scan_base(dir, stamp, entries);
    let j = (unique_scan(dir, stamp, entries).1 - 1) as nat;
    lemma_variant_shape(stamp, j);
    lemma_variant_parts(dir, name_variant(stamp, j), Seq::empty());
}

/// A directory entry whose part before `--` is none of the stamp's names (`stamp`,
/// `stamp_1`, `stamp_2`, ...) does not change the transcript name, wherever it stands
/// in the listing: adding or removing such entries leaves the name as it was.
pub proof fn lemma_unrelated_entry(
    dir: Seq<char>,
    stamp: Seq<char>,
    a: Seq<Seq<char>>,
    e: Seq<char>,
    b: Seq<Seq<char>>,
)
    requires
        file_stamp_shape(stamp),
        forall|k: nat| stamp_part(e) != #[trigger] name_variant(stamp, k),
    ensures
        unique_scan(dir, stamp, a + seq![e] + b) == unique_scan(dir, stamp, a + b),
        unique_name(dir, stamp, a + seq![e] + b) == unique_name(dir, stamp, a + b),
    decreases b.len(),
{
    if b.len() == 0 {
        let ae = a + seq![e] + b;
        assert(ae.drop_last() =~= a);
        assert(ae.last() == e);
        assert(a + b =~= a);
        lemma_scan_clash(dir, stamp, a);
        assert(stamp_part(e) != name_variant(stamp, (unique_scan(dir, stamp, a).1 - 1) as nat));
    } else {
        lemma_unrelated_entry(dir, stamp, a, e, b.drop_last());
        let ae = a + seq![e] + b;
        let ab = a + b;
        assert(ae.drop_last() =~= a + seq![e] + b.drop_last());
        assert(ab.drop_last() =~= a + b.drop_last());
        assert(ae.last() == b.last());
        assert(ab.last() == b.last());
    }
}

/// Any number of unrelated entries, standing together anywhere in the listing, leave
/// the transcript name as it was.
pub proof fn lemma_unrelated_entries(
    dir: Seq<char>,
    stamp: Seq<char>,
    a: Seq<Seq<char>>,
    u: Seq<Seq<char>>,
    b: Seq<Seq<char>>,
)
    requires
        file_stamp_shape(stamp),
        forall|i: int, k: nat|
            0 <= i < u.len() ==> stamp_part(#[trigger] u[i]) != #[trigger] name_variant(stamp, k),
    ensures
        unique_name(dir, stamp, a + u + b) == unique_name(dir, stamp, a + b),
    decreases u.len(),
{
    if u.len() == 0 {
        assert(a + u + b =~= a + b);
    } else {
        let e = u[0];
        let u2 = u.drop_first();
        assert forall|i: int, k: nat| 0 <= i < u2.len() implies stamp_part(#[trigger] u2[i])
            != #[trigger] name_variant(stamp, k) by {
            assert(u2[i] == u[i + 1]);
        }
        assert forall|k: nat| stamp_part(e) != #[trigger] name_variant(stamp, k) by {
            assert(stamp_part(u[0]) != name_variant(stamp, k));
        }
        lemma_unrelated_entry(dir, stamp, a, e, u2 + b);
        assert(a + u + b =~= a + seq![e] + (u2 + b));
        assert(a + (u2 + b) =~= a + u2 + b);
        lemma_unrelated_entries(dir, stamp, a, u2, b);
    }
}

proof fn lemma_variants_differ(stamp: Seq<char>, j: nat)
    requires
        file_stamp_shape(stamp),
    ensures
        name_variant(stamp, j) != name_variant(stamp, j + 1),
{
    reveal_strlit("_");
    lemma_decimal_shape(j + 1);
    let n = stamp.len() as int;
    if j == 0 {
        assert(name_variant(stamp, 1).len() > n);
    } else {
        lemma_decimal_shape(j);
        if name_variant(stamp, j) == name_variant(stamp, j + 1) {
            assert(name_variant(stamp, j).skip(n + 1) =~= decimal(j));
            assert(name_variant(stamp, j + 1).skip(n + 1) =~= decimal(j + 1));
            assert(digits_value(decimal(j)) == digits_value(decimal(j + 1)));
        }
    }
}

/// Writing a transcript under the returned name moves the name on: when the listing
/// gains `name--title` for the returned `dir/name` (which is `stamp` or `stamp_j`), the
/// next name is the stamp's next variant, and it differs from the first.
pub proof fn lemma_written_back(
    dir: Seq<char>,
    stamp: Seq<char>,
    entries: Seq<Seq<char>>,
    title: Seq<char>,
)
    requires
        file_stamp_shape(stamp),
    ensures
        unique_name(dir, stamp, entries) == dir + "/"@ + name_variant(
            stamp,
            (unique_scan(dir, stamp, entries).1 - 1) as nat,
        ),
        unique_name(
            dir,
            stamp,
            entries.push(
                name_variant(stamp, (unique_scan(dir, stamp, entries).1 - 1) as nat) + "--"@
                    + title,
            ),
        ) == dir + "/"@ + name_variant(stamp, unique_scan(dir, stamp, entries).1),
        unique_name(
            dir,
            stamp,
            entries.push(
                name_variant(stamp, (unique_scan(dir, stamp, entries).1 - 1) as nat) + "--"@
                    + title,
            ),
        ) != unique_name(dir, stamp, entries),
{
    lemma_scan_base(dir, stamp, entries);
    lemma_scan_clash(dir, stamp, entries);
    let counter = unique_scan(dir, stamp, entries).1;
    let j = (counter - 1) as nat;
    let v = name_variant(stamp, j);
    lemma_variant_shape(stamp, j);
    lemma_variant_parts(dir, v, title);
    let e = v + "--"@ + title;
    let es = entries.push(e);
    assert(es.drop_last() =~= entries);
    assert(es.last() == e);
    assert(dir + "/"@ + stamp + "_"@ + decimal(counter) =~= dir + "/"@ + name_variant(
        stamp,
        counter,
    ));
    lemma_variants_differ(stamp, j);
    let w = name_variant(stamp, counter);
    if dir + "/"@ + w == dir + "/"@ + v {
        assert((dir + "/"@ + w).skip((dir.len() + "/"@.len()) as int) =~= w);
        assert((dir + "/"@ + v).skip((dir.len() + "/"@.len()) as int) =~= v);
    }
}

/// The history file is never a transcript: `d/_history.json` differs from every path
/// `d/c...` whose component `c` does not start with `_`.
pub proof fn lemma_history_differs(d: Seq<char>, c: Seq<char>, suffix: Seq<char>)
    requires
        c.len() > 0,
        c[0] != '_',
    ensures
        history_path(d) != d + "/"@ + c + suffix,
{
    reveal_strlit("/_history.json");
    reveal_strlit("/");
    let h = history_path(d);
    let p = d + "/"@ + c + suffix;
    let i = d.len() as int + 1;
    assert(h[i] == "/_history.json"@[1]);
    assert(p[i] == c[0]);
}

/// The history file is never the transcript named by the clash scan, whatever suffix
/// the transcript gets.
pub proof fn lemma_history_not_transcript(
    dir: Seq<char>,
    stamp: Seq<char>,
    entries: Seq<Seq<char>>,
    suffix: Seq<char>,
)
    requires
        file_stamp_shape(stamp),
    ensures
        history_path(dir) != unique_name(dir, stamp, entries) + suffix,
{
    lemma_scan_base(dir, stamp, entries);
    let j = (unique_scan(dir, stamp, entries).1 - 1) as nat;
    lemma_variant_shape(stamp, j);
    let v = name_variant(stamp, j);
    lemma_history_differs(dir, v, suffix);
    assert(unique_name(dir, stamp, entries) + suffix =~= dir + "/"@ + v + suffix);
}

/// The strftime pattern of the stamp in transcript file names.
pub open spec fn file_stamp_format() -> Seq<char> {
    "%Y-%m-%d_%H%M"@
}

/// The strftime pattern of the time written into a transcript.
pub open spec fn readable_stamp_format() -> Seq<char> {
    "%A %Y-%m-%d %H:%M (%z)"@
}

/// The time patterns that this library formats with.
pub open spec fn known_time_format(fmt: Seq<char>) -> bool {
    fmt == file_stamp_format() || fmt == readable_stamp_format()
}

/// Whether chrono can represent the moment `secs` seconds after the Unix epoch
/// (a range of well over two hundred thousand years either way).
pub open spec fn representable_time(secs: int) -> bool {
    -8_000_000_000_000 <= secs <= 8_000_000_000_000
}

/// What chrono writes for the UTC time `secs` seconds after the Unix epoch with
/// strftime pattern `fmt`.
pub uninterp spec fn utc_format(secs: int, fmt: Seq<char>) -> Seq<char>;

/// Formats a UTC time with chrono's `DateTime::<Utc>::from_timestamp` and
/// `DateTime::format`. The contract claims that the text is a function of the
/// seconds and the pattern, and that every time within `representable_time` can be
/// formatted (chrono refuses only dates beyond its year range). The text itself is
/// left unstated, but for the file-name pattern its shape: chrono writes `%Y` as four
/// or more digits, with a sign before years outside 0..=9999, and the other fields as
/// two digits, so the stamp is `[sign]YYYY-MM-DD_HHMM` (see `file_stamp_shape`). The
/// pattern must be one this library uses, as chrono's `Display` fails, and
/// `to_string` panics, on a malformed pattern.
#[verifier::external_body]
fn format_utc(secs: i64, fmt: &str) -> (r: Option<String>)
    requires
        known_time_format(fmt@),
    ensures
        r matches Some(s) ==> s@ == utc_format(secs as int, fmt@),
        r matches Some(s) ==> (fmt@ == file_stamp_format() ==> file_stamp_shape(s@)),
        representable_time(secs as int) ==> r is Some,
{
    match chrono::DateTime::from_timestamp(secs, 0) {
        Some(t) => Some(t.format(fmt).to_string()),
        None => None,
    }
}

/// The base name for a new transcript in `curr_path` at time `now_secs`, given the
/// names of the entries in `curr_path`; `None` only for a time chrono cannot represent.
pub fn unique_base_filename(curr_path: &str, now_secs: i64, entries: &Vec<String>) -> (r: Option<
    String,
>)
    requires
        entries.len() < usize::MAX,
    ensures
        r matches Some(s) ==> s@ == unique_name(
            curr_path@,
            utc_format(now_secs as int, file_stamp_format()),
            views(entries@),
        ),
        r is Some ==> file_stamp_shape(utc_format(now_secs as int, file_stamp_format())),
        representable_time(now_secs as int) ==> r is Some,
{
    match format_utc(now_secs, "%Y-%m-%d_%H%M") {
        Some(stamp) => Some(base_filename(curr_path, stamp.as_str(), entries)),
        None => None,
    }
}

/// The transcript file's text: a header naming the model and the time, a rule,
/// then the transcript.
pub open spec fn markdown_text(model: Seq<char>, stamp: Seq<char>, transcript: Seq<char>) -> Seq<
    char,
> {
    "Model: "@ + model + " Timestamp: "@ + stamp + "\n---\n"@ + transcript + "\n\n"@
}

/// Builds the transcript file's text for a conversation held with `model_name`,
/// written at `now_secs`.
pub fn markdown_contents(stamp: &str, model_name: &str, conversation_md: &str) -> (r: String)
    ensures
        r@ == markdown_text(model_name@, stamp@, conversation_md@),
{
    let mut s = String::from_str("Model: ");
    s.append(model_name);
    s.append(" Timestamp: ");
    s.append(stamp);
    s.append("\n---\n");
    s.append(conversation_md);
    s.append("\n\n");
    s
}

/// The transcript file's text at time `now_secs`; `None` only for a time chrono
/// cannot represent.
pub fn markdown_document(model_name: &str, now_secs: i64, conversation_md: &str) -> (r: Option<
    String,
>)
    ensures
        r matches Some(s) ==> s@ == markdown_text(
            model_name@,
            utc_format(now_secs as int, readable_stamp_format()),
            conversation_md@,
        ),
        representable_time(now_secs as int) ==> r is Some,
{
    match format_utc(now_secs, "%A %Y-%m-%d %H:%M (%z)") {
        Some(stamp) => Some(markdown_contents(stamp.as_str(), model_name, conversation_md)),
        None => None,
    }
}

} // verus!
