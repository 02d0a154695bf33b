//! Decimal numerals: printing a count and reading a menu choice back.
use vstd::prelude::*;
use crate::text::{chars_of, string_of, trim, trim_str};

verus! {

/// Whether `c` is one of the ASCII digits `0`..=`9`.
pub open spec fn is_digit(c: char) -> bool {
    48 <= (c as u32) && (c as u32) <= 57
}

/// The digit character for `d < 10`.
pub open spec fn digit_char(d: nat) -> char {
    seq!['0', '1', '2', '3', '4', '5', '6', '7', '8', '9'][d as int]
}

fn digit(d: usize) -> (c: char)
    requires
        d < 10,
    ensures
        c == digit_char(d as nat),
{
    match d {
        0 => '0',
        1 => '1',
        2 => '2',
        3 => '3',
        4 => '4',
        5 => '5',
        6 => '6',
        7 => '7',
        8 => '8',
        _ => '9',
    }
}

/// The value of a run of ASCII digits read as a decimal numeral.
pub open spec fn digits_value(s: Seq<char>) -> nat
    decreases s.len(),
{
    if s.len() == 0 {
        0
    } else {
        digits_value(s.drop_last()) * 10 + ((s.last() as u32) - 48) as nat
    }
}

/// Whether every character of `s` is an ASCII digit.
pub open spec fn all_digits(s: Seq<char>) -> bool {
    forall|j: int| 0 <= j < s.len() ==> is_digit(#[trigger] s[j])
}

/// The decimal numeral of `n`, without sign or leading zeros.
pub open spec fn decimal(n: nat) -> Seq<char>
    decreases n,
{
    if n < 10 {
        seq![digit_char(n)]
    } else {
        decimal(n / 10).push(digit_char(n % 10))
    }
}

/// What `str::parse::<usize>` makes of `s`: an optional `+`, then one or more ASCII
/// digits whose value fits in a `usize`; anything else is refused.
pub open spec fn parse_usize(s: Seq<char>) -> Option<nat> {
    let d = if s.len() > 0 && s[0] == '+' {
        s.drop_first()
    } else {
        s
    };
    if d.len() > 0 && all_digits(d) && digits_value(d) <= usize::MAX {
        Some(digits_value(d))
    } else {
        None
    }
}

/// Appends the decimal numeral of `n` to `out`.
pub(crate) fn push_decimal(n: usize, out: &mut Vec<char>)
    ensures
        final(out)@ == old(out)@ + decimal(n as nat),
    decreases n,
{
    if n >= 10 {
        push_decimal(n / 10, out);
    }
    let c = digit(n % 10);
    out.push(c);
    proof {
        if n < 10 {
            assert(old(out)@ + decimal(n as nat) =~= old(out)@.push(c));
        } else {
            assert(old(out)@ + decimal(n as nat) =~= (old(out)@ + decimal((n / 10) as nat)).push(
                c,
            ));
        }
    }
}

/// The decimal numeral of `n`, as `n.to_string()` writes it.
pub fn decimal_string(n: usize) -> (s: String)
    ensures
        s@ == decimal(n as nat),
{
    let mut v: Vec<char> = Vec::new();
    push_decimal(n, &mut v);
    assert(v@ =~= decimal(n as nat));
    string_of(v.as_slice())
}

proof fn lemma_digits_value_prefix(s: Seq<char>, k: int)
    requires
        0 <= k <= s.len(),
    ensures
        digits_value(s.take(k)) <= digits_value(s),
    decreases s.len() - k,
{
    if k < s.len() {
        lemma_digits_value_prefix(s.drop_last(), k);
        assert(s.drop_last().take(k) =~= s.take(k));
    } else {
        assert(s.take(k) =~= s);
    }
}

/// Reads `s` as `str::parse::<usize>` does.
pub fn parse_usize_str(s: &str) -> (r: Option<usize>)
    ensures
        r matches Some(v) ==> parse_usize(s@) == Some(v as nat),
        r is None ==> parse_usize(s@) is None,
{
    let v = chars_of(s);
    let n = v.len();
    let mut i: usize = 0;
    if n > 0 && v[0] == '+' {
        i = 1;
    }
    let ghost d = if v@.len() > 0 && v@[0] == '+' {
        v@.drop_first()
    } else {
        v@
    };
    assert(d =~= v@.skip(i as int));
    if i == n {
        return None;
    }
    let start = i;
    let mut value: usize = 0;
    while i < n
        invariant
            start <= i <= n == v.len(),
            v@ == s@,
            d == (if v@.len() > 0 && v@[0] == '+' {
                v@.drop_first()
            } else {
                v@
            }),
            d =~= v@.skip(start as int),
            start < n,
            value == digits_value(d.take(i - start)),
            all_digits(d.take(i - start)),
        decreases n - i,
    {
        let c = v[i];
        let code = c as u32;
        assert(d[i - start] == c);
        if code < 48 || code > 57 {
            assert(!all_digits(d)) by {
                assert(!is_digit(d[i - start]));
            }
            return None;
        }
        let dv = (code - 48) as usize;
        assert(d.take(i - start + 1).drop_last() =~= d.take(i - start));
        assert(d.take(i - start + 1).last() == c);
        match value.checked_mul(10) {
            Some(m) => match m.checked_add(dv) {
                Some(nv) => {
                    value = nv;
                },
                None => {
                    proof {
                        lemma_digits_value_prefix(d, i - start + 1);
                    }
                    return None;
                },
            },
            None => {
                proof {
                    lemma_digits_value_prefix(d, i - start + 1);
                }
                return None;
            },
        }
        i = i + 1;
        assert forall|j: int| 0 <= j < d.take(i - start).len() implies is_digit(
            #[trigger] d.take(i - start)[j],
        ) by {
            if j < i - 1 - start {
                assert(d.take(i - start)[j] == d.take(i - 1 - start)[j]);
            }
        }
    }
    assert(d.take(n - start) =~= d);
    Some(value)
}

/// The numeral of a positive count reads back as that count.
pub proof fn lemma_parse_decimal(n: nat)
    requires
        n <= usize::MAX,
    ensures
        parse_usize(decimal(n)) == Some(n),
        trim(decimal(n)) == decimal(n),
{
    lemma_decimal_shape(n);
    let s = decimal(n);
    assert(!is_digit('+'));
    assert(is_digit(s[0]));
    assert(trim(s) == s) by {
        assert(!crate::text::is_white(s[0]));
        assert(!crate::text::is_white(s.last()));
    }
}

/// A numeral is a non-empty run of digits whose value is the number.
pub proof fn lemma_decimal_shape(n: nat)
    ensures
        decimal(n).len() > 0,
        all_digits(decimal(n)),
        digits_value(decimal(n)) == n,
    decreases n,
{
    let ds: Seq<char> = seq!['0', '1', '2', '3', '4', '5', '6', '7', '8', '9'];
    assert(forall|d: int| 0 <= d < 10 ==> (ds[d] as u32) == 48 + d && is_digit(#[trigger] ds[d]));
    if n < 10 {
        assert(decimal(n)[0] == ds[n as int]);
        assert(decimal(n).drop_last() =~= Seq::<char>::empty());
        assert(decimal(n).last() == ds[n as int]);
        assert((ds[n as int] as u32) == 48 + n);
        assert(digits_value(decimal(n).drop_last()) == 0);
        assert(digits_value(decimal(n)) == n);
    } else {
        lemma_decimal_shape(n / 10);
        let s = decimal(n);
        assert(s.drop_last() =~= decimal(n / 10));
        assert(s.last() == ds[(n % 10) as int]);
        assert(n == (n / 10) * 10 + n % 10);
        assert((ds[(n % 10) as int] as u32) == 48 + n % 10);
        assert(digits_value(s) == digits_value(decimal(n / 10)) * 10 + (n % 10));
        assert forall|j: int| 0 <= j < s.len() implies is_digit(#[trigger] s[j]) by {
            if j < s.len() - 1 {
                assert(s[j] == decimal(n / 10)[j]);
            }
        }
    }
}

/// The menu number typed by the user: the trimmed input read as a `usize`,
/// or 1 when it does not read as one.
pub open spec fn choice_of(input: Seq<char>) -> nat {
    match parse_usize(trim(input)) {
        Some(v) => v,
        None => 1,
    }
}

/// Reads the user's menu choice; input that is not a number chooses 1.
pub fn parse_choice(input: &str) -> (r: usize)
    ensures
        r == choice_of(input@),
{
    let t = trim_str(input);
    match parse_usize_str(t.as_str()) {
        Some(v) => v,
        None => 1,
    }
}

} // verus!
