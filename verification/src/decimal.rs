//! Unsigned decimal numbers: writing them, and reading them back the way
//! the standard library's integer parser does.

use vstd::prelude::*;

verus! {

/// The character of a decimal digit.
pub open spec fn digit_char(d: int) -> char {
    if d == 0 {
        '0'
    } else if d == 1 {
        '1'
    } else if d == 2 {
        '2'
    } else if d == 3 {
        '3'
    } else if d == 4 {
        '4'
    } else if d == 5 {
        '5'
    } else if d == 6 {
        '6'
    } else if d == 7 {
        '7'
    } else if d == 8 {
        '8'
    } else {
        '9'
    }
}

/// A character between `'0'` and `'9'`.
pub open spec fn is_digit(c: char) -> bool {
    '0' <= c && c <= '9'
}

/// The value of a digit character.
pub open spec fn digit_value(c: char) -> int {
    c as int - '0' as int
}

/// The value of a sequence of digits, most significant first.
pub open spec fn digits_value(ds: Seq<char>) -> int
    decreases ds.len(),
{
    if ds.len() == 0 {
        0
    } else {
        digits_value(ds.drop_last()) * 10 + digit_value(ds.last())
    }
}

/// All characters are digits.
pub open spec fn all_digits(ds: Seq<char>) -> bool {
    forall|i: int| 0 <= i < ds.len() ==> is_digit(#[trigger] ds[i])
}

/// The shortest decimal form of `n`.
pub open spec fn decimal(n: nat) -> Seq<char>
    decreases n,
{
    if n < 10 {
        seq![digit_char(n as int)]
    } else {
        decimal(n / 10).push(digit_char((n % 10) as int))
    }
}

/// The digits of an unsigned number in text: one leading `'+'` is allowed.
pub open spec fn unsigned_digits(cs: Seq<char>) -> Seq<char> {
    if cs.len() > 0 && cs[0] == '+' {
        cs.drop_first()
    } else {
        cs
    }
}

/// The value of `cs` read as an unsigned number no larger than `max`: an
/// optional `'+'` and at least one digit; `None` for anything else or a
/// value above `max`.
pub open spec fn parse_unsigned(cs: Seq<char>, max: int) -> Option<int> {
    let ds = unsigned_digits(cs);
    if ds.len() > 0 && all_digits(ds) && digits_value(ds) <= max {
        Some(digits_value(ds))
    } else {
        None
    }
}

/// A digit character has the value it was made from.
pub proof fn lemma_digit_char(d: int)
    requires
        0 <= d < 10,
    ensures
        is_digit(digit_char(d)),
        digit_value(digit_char(d)) == d,
{
}

/// A number's decimal form is digits only, and reads back as the number.
pub proof fn lemma_decimal(n: nat)
    ensures
        decimal(n).len() > 0,
        all_digits(decimal(n)),
        digits_value(decimal(n)) == n,
        decimal(n)[0] != '+',
    decreases n,
{
    if n < 10 {
        lemma_digit_char(n as int);
        let s = decimal(n);
        assert(s.drop_last().len() == 0);
        assert(digits_value(s.drop_last()) == 0);
        assert(digits_value(s) == digits_value(s.drop_last()) * 10 + digit_value(s.last()));
    } else {
        lemma_decimal(n / 10);
        lemma_digit_char((n % 10) as int);
        let s = decimal(n);
        assert(s.drop_last() =~= decimal(n / 10));
        assert(s.last() == digit_char((n % 10) as int));
        assert((n / 10) * 10 + n % 10 == n);
        assert(digits_value(s) == digits_value(s.drop_last()) * 10 + digit_value(s.last()));
        assert(s[0] == decimal(n / 10)[0]);
        assert forall|i: int| 0 <= i < s.len() implies is_digit(#[trigger] s[i]) by {
            if i < s.len() - 1 {
                assert(s[i] == decimal(n / 10)[i]);
            }
        }
    }
}

/// The decimal form of a number is read back as that number.
pub proof fn lemma_parse_decimal(n: nat, max: int)
    requires
        n <= max,
    ensures
        parse_unsigned(decimal(n), max) == Some(n as int),
{
    lemma_decimal(n);
}

/// Prefixes of a digit sequence are worth no more than the whole.
pub proof fn lemma_digits_value_prefix(ds: Seq<char>, k: int)
    requires
        all_digits(ds),
        0 <= k <= ds.len(),
    ensures
        0 <= digits_value(ds.take(k)) <= digits_value(ds),
    decreases ds.len(),
{
    if ds.len() == 0 {
        assert(ds.take(k) =~= ds);
    } else if k == ds.len() {
        assert(ds.take(k) =~= ds);
        lemma_digits_value_prefix(ds.drop_last(), k - 1);
    } else {
        assert(is_digit(ds[ds.len() - 1]));
        assert(ds.drop_last().take(k) =~= ds.take(k));
        lemma_digits_value_prefix(ds.drop_last(), k);
    }
}

/// Reading one more digit multiplies by ten and adds the digit.
proof fn lemma_digits_step(ds: Seq<char>, k: int)
    requires
        0 <= k < ds.len(),
    ensures
        digits_value(ds.take(k + 1)) == digits_value(ds.take(k)) * 10 + digit_value(ds[k]),
{
    assert(ds.take(k + 1).drop_last() =~= ds.take(k));
    assert(ds.take(k + 1).last() == ds[k]);
}

/// A digit sequence whose prefix already exceeds `max` exceeds it too.
proof fn lemma_digits_exceed(ds: Seq<char>, k: int, max: int)
    requires
        0 < k <= ds.len(),
        forall|i: int| 0 <= i < k ==> is_digit(#[trigger] ds[i]),
        digits_value(ds.take(k)) > max,
    ensures
        !(all_digits(ds) && digits_value(ds) <= max),
{
    if all_digits(ds) {
        lemma_digits_value_prefix(ds, k);
    }
}

/// The character of digit `d`.
pub fn digit_to_char(d: u64) -> (c: char)
    requires
        d < 10,
    ensures
        c == digit_char(d as int),
{
    if d == 0 {
        '0'
    } else if d == 1 {
        '1'
    } else if d == 2 {
        '2'
    } else if d == 3 {
        '3'
    } else if d == 4 {
        '4'
    } else if d == 5 {
        '5'
    } else if d == 6 {
        '6'
    } else if d == 7 {
        '7'
    } else if d == 8 {
        '8'
    } else {
        '9'
    }
}

/// Appends the decimal form of `n` to `out`.
pub fn push_decimal(out: &mut String, n: u64)
    ensures
        final(out)@ == old(out)@ + decimal(n as nat),
    decreases n,
{
    if n >= 10 {
        push_decimal(out, n / 10);
    }
    let c = digit_to_char(n % 10);
    out.push(c);
    proof {
        if n >= 10 {
            assert(decimal(n as nat) == decimal((n / 10) as nat).push(c));
        }
    }
}

/// Reads `chars[start..end]` as an unsigned number no larger than `max`.
pub fn parse_unsigned_at(chars: &Vec<char>, start: usize, end: usize, max: u64) -> (res: Option<
    u64,
>)
    requires
        start <= end <= chars@.len(),
    ensures
        match res {
            Some(v) => parse_unsigned(chars@.subrange(start as int, end as int), max as int)
                == Some(v as int),
            None => parse_unsigned(chars@.subrange(start as int, end as int), max as int) is None,
        },
{
    let ghost cs = chars@.subrange(start as int, end as int);
    let mut first = start;
    if start < end && chars[start] == '+' {
        first = start + 1;
    }
    let ghost ds = unsigned_digits(cs);
    assert(ds =~= chars@.subrange(first as int, end as int));
    if first == end {
        return None;
    }
    let mut value: u128 = 0;
    let mut k = first;
    while k < end
        invariant
            start <= first <= k <= end <= chars@.len(),
            cs == chars@.subrange(start as int, end as int),
            ds == unsigned_digits(cs),
            ds.len() > 0,
            ds =~= chars@.subrange(first as int, end as int),
            value <= max,
            forall|i: int| 0 <= i < k - first ==> is_digit(#[trigger] ds[i]),
            value == digits_value(ds.take(k - first)),
        decreases end - k,
    {
        let c = chars[k];
        assert(c == ds[k - first]);
        if !('0' <= c && c <= '9') {
            assert(!is_digit(ds[k - first]));
            return None;
        }
        let d = (c as u32 - '0' as u32) as u128;
        let next = value * 10 + d;
        proof {
            lemma_digits_step(ds, k - first);
        }
        if next > max as u128 {
            proof {
                lemma_digits_exceed(ds, k - first + 1, max as int);
            }
            return None;
        }
        value = next;
        k = k + 1;
    }
    assert(ds.take(end - first) =~= ds);
    Some(value as u64)
}

} // verus!
