//! Small verified helpers on `str` and `String`.

use vstd::prelude::*;

verus! {

/// `String::push` appends one character at the end of the string.
pub assume_specification[ String::push ](s: &mut String, ch: char)
    ensures
        final(s)@ == old(s)@.push(ch),
;

/// `String::push_str` appends the characters of `string` at the end.
pub assume_specification[ String::push_str ](s: &mut String, string: &str)
    ensures
        final(s)@ == old(s)@ + string@,
;

/// Compares two string slices character by character.
pub fn text_eq(a: &str, b: &str) -> (res: bool)
    ensures
        res == (a@ == b@),
{
    let x = a.as_bytes();
    let y = b.as_bytes();
    proof {
        vstd::utf8::encode_utf8_decode_utf8(a@);
        vstd::utf8::encode_utf8_decode_utf8(b@);
    }
    if x.len() != y.len() {
        return false;
    }
    let mut i: usize = 0;
    while i < x.len()
        invariant
            x@ == vstd::utf8::encode_utf8(a@),
            y@ == vstd::utf8::encode_utf8(b@),
            x@.len() == y@.len(),
            i <= x@.len(),
            forall|k: int| 0 <= k < i ==> x@[k] == y@[k],
        decreases x@.len() - i,
    {
        if x[i] != y[i] {
            return false;
        }
        i = i + 1;
    }
    assert(x@ =~= y@);
    true
}

/// The position of the first `c` in `s`.
pub open spec fn first_index(s: Seq<char>, c: char) -> Option<int>
    decreases s.len(),
{
    if s.len() == 0 {
        None
    } else if s[0] == c {
        Some(0)
    } else {
        match first_index(s.drop_first(), c) {
            Some(i) => Some(i + 1),
            None => None,
        }
    }
}

/// `first_index` finds the first occurrence, or tells that there is none.
pub proof fn lemma_first_index(s: Seq<char>, c: char)
    ensures
        match first_index(s, c) {
            Some(i) => 0 <= i < s.len() && s[i] == c && forall|k: int| 0 <= k < i ==> s[k] != c,
            None => forall|k: int| 0 <= k < s.len() ==> s[k] != c,
        },
    decreases s.len(),
{
    if s.len() > 0 && s[0] != c {
        lemma_first_index(s.drop_first(), c);
        assert forall|k: int| 1 <= k < s.len() implies s[k] == s.drop_first()[k - 1] by {}
    }
}

/// A `c` with none before it is the first one.
pub proof fn lemma_first_index_at(s: Seq<char>, c: char, i: int)
    requires
        0 <= i < s.len(),
        s[i] == c,
        forall|k: int| 0 <= k < i ==> s[k] != c,
    ensures
        first_index(s, c) == Some(i),
{
    lemma_first_index(s, c);
}

/// Without a `c` there is no first one.
pub proof fn lemma_first_index_none(s: Seq<char>, c: char)
    requires
        forall|k: int| 0 <= k < s.len() ==> s[k] != c,
    ensures
        first_index(s, c) is None,
{
    lemma_first_index(s, c);
}

/// The pieces of `s` between the occurrences of `sep` (always at least one),
/// as the standard library's `str::split` gives them.
pub open spec fn split_on(s: Seq<char>, sep: char) -> Seq<Seq<char>>
    decreases s.len(),
{
    match first_index(s, sep) {
        Some(i) => {
            proof {
                lemma_first_index(s, sep);
            }
            seq![s.take(i)] + split_on(s.skip(i + 1), sep)
        },
        None => seq![s],
    }
}

/// No piece holds the separator.
pub proof fn lemma_split_on_lacks(s: Seq<char>, sep: char)
    ensures
        forall|i: int|
            0 <= i < split_on(s, sep).len() ==> !(#[trigger] split_on(s, sep)[i]).contains(sep),
    decreases s.len(),
{
    lemma_first_index(s, sep);
    match first_index(s, sep) {
        Some(i) => {
            lemma_split_on_lacks(s.skip(i + 1), sep);
            let r = split_on(s, sep);
            let t = split_on(s.skip(i + 1), sep);
            assert forall|k: int| 0 <= k < r.len() implies !(#[trigger] r[k]).contains(sep) by {
                if k == 0 {
                    if s.take(i).contains(sep) {
                        let m = choose|m: int| 0 <= m < s.take(i).len() && s.take(i)[m] == sep;
                        assert(s[m] == sep);
                    }
                } else {
                    assert(r[k] == t[k - 1]);
                }
            }
        },
        None => {
            if s.contains(sep) {
                let m = choose|m: int| 0 <= m < s.len() && s[m] == sep;
            }
        },
    }
}

/// The characters of the given ranges.
pub open spec fn ranges_view(cs: Seq<char>, rs: Seq<(usize, usize)>) -> Seq<Seq<char>> {
    rs.map_values(|r: (usize, usize)| cs.subrange(r.0 as int, r.1 as int))
}

/// The characters of a string slice.
pub fn chars_of(text: &str) -> (chars: Vec<char>)
    ensures
        chars@ == text@,
{
    let mut chars: Vec<char> = Vec::new();
    for c in it: text.chars()
        invariant
            chars@ == it.seq().take(it.index() as int),
    {
        chars.push(c);
    }
    chars
}

/// The characters `chars[start..end]` as a string.
pub fn string_from(chars: &Vec<char>, start: usize, end: usize) -> (s: String)
    requires
        start <= end <= chars@.len(),
    ensures
        s@ == chars@.subrange(start as int, end as int),
{
    let mut s = String::new();
    let mut k = start;
    while k < end
        invariant
            start <= k <= end <= chars@.len(),
            s@ == chars@.subrange(start as int, k as int),
        decreases end - k,
    {
        s.push(chars[k]);
        assert(chars@.subrange(start as int, k + 1) =~= chars@.subrange(start as int, k as int).push(
            chars@[k as int],
        ));
        k = k + 1;
    }
    s
}

/// Splits `chars[start..end]` at each `sep`; the result holds the bounds of
/// each piece.
pub fn split_ranges(chars: &Vec<char>, start: usize, end: usize, sep: char) -> (ranges: Vec<
    (usize, usize),
>)
    requires
        start <= end <= chars@.len(),
    ensures
        ranges_view(chars@, ranges@) == split_on(chars@.subrange(start as int, end as int), sep),
        forall|r: int|
            0 <= r < ranges@.len() ==> start <= (#[trigger] ranges@[r]).0 <= ranges@[r].1 <= end,
{
    let ghost l = chars@.subrange(start as int, end as int);
    let mut ranges: Vec<(usize, usize)> = Vec::new();
    let mut piece_start = start;
    let mut k = start;
    while k < end
        invariant
            start <= piece_start <= k <= end <= chars@.len(),
            l == chars@.subrange(start as int, end as int),
            forall|m: int| piece_start <= m < k ==> chars@[m] != sep,
            split_on(l, sep) == ranges_view(chars@, ranges@) + split_on(
                chars@.subrange(piece_start as int, end as int),
                sep,
            ),
            forall|r: int|
                0 <= r < ranges@.len() ==> start <= (#[trigger] ranges@[r]).0 <= ranges@[r].1
                    <= end,
        decreases end - k,
    {
        if chars[k] == sep {
            let ghost rest = chars@.subrange(piece_start as int, end as int);
            proof {
                lemma_first_index_at(rest, sep, k - piece_start);
                assert(rest.take(k - piece_start) =~= chars@.subrange(piece_start as int, k as int));
                assert(rest.skip(k - piece_start + 1) =~= chars@.subrange(k + 1, end as int));
            }
            let ghost before = ranges@;
            ranges.push((piece_start, k));
            assert(ranges_view(chars@, ranges@) =~= ranges_view(chars@, before).push(
                chars@.subrange(piece_start as int, k as int),
            ));
            piece_start = k + 1;
        }
        k = k + 1;
    }
    let ghost rest = chars@.subrange(piece_start as int, end as int);
    proof {
        lemma_first_index_none(rest, sep);
    }
    let ghost before = ranges@;
    ranges.push((piece_start, end));
    assert(ranges_view(chars@, ranges@) =~= ranges_view(chars@, before).push(rest));
    ranges
}

} // verus!
