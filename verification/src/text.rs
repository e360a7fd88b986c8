//! Small verified helpers on text: characters of a string, splitting, and
//! decimal numbers.

use vstd::prelude::*;
use vstd::string::StrSliceExecFns;

verus! {

/// The characters of `s`, in order.
pub fn chars_of(s: &str) -> (v: Vec<char>)
    ensures
        v@ == s@,
{
    let mut v: Vec<char> = Vec::new();
    for c in it: s.chars()
        invariant
            v@ == it.seq().take(it.index() as int),
            it.seq() == s@,
    {
        v.push(c);
    }
    v
}

/// Whether two strings hold the same characters.
pub fn same_text(a: &str, b: &str) -> (r: bool)
    ensures
        r == (a@ == b@),
{
    let x = a.to_owned();
    let y = b.to_owned();
    x == y
}

/// A copy of `v[from..to]`.
pub fn slice_of(v: &Vec<char>, from: usize, to: usize) -> (r: Vec<char>)
    requires
        from <= to <= v.len(),
    ensures
        r@ == v@.subrange(from as int, to as int),
{
    let mut r: Vec<char> = Vec::new();
    let mut i = from;
    while i < to
        invariant
            from <= i <= to <= v.len(),
            r@ == v@.subrange(from as int, i as int),
        decreases to - i,
    {
        r.push(v[i]);
        proof {
            assert(v@.subrange(from as int, i + 1) =~= v@.subrange(from as int, i as int).push(v@[i as int]));
        }
        i += 1;
    }
    r
}

/// Position of the first `sep` in `s[k..]`, or `s.len()` if there is none.
pub open spec fn position_from(s: Seq<char>, sep: char, k: int) -> int
    decreases s.len() - k,
{
    if k < 0 || k >= s.len() {
        s.len() as int
    } else if s[k] == sep {
        k
    } else {
        position_from(s, sep, k + 1)
    }
}

/// The text before and after the first `sep`, if `s` holds one.
pub open spec fn split_at_first(s: Seq<char>, sep: char) -> Option<(Seq<char>, Seq<char>)> {
    let i = position_from(s, sep, 0);
    if i < s.len() {
        Some((s.take(i), s.skip(i + 1)))
    } else {
        None
    }
}

/// The position found is in range and holds `sep`, or is the length.
pub proof fn lemma_position_from(s: Seq<char>, sep: char, k: int)
    requires
        0 <= k <= s.len(),
    ensures
        k <= position_from(s, sep, k) <= s.len(),
        position_from(s, sep, k) < s.len() ==> s[position_from(s, sep, k)] == sep,
        forall|j: int| k <= j < position_from(s, sep, k) ==> s[j] != sep,
    decreases s.len() - k,
{
    if k < s.len() && s[k] != sep {
        lemma_position_from(s, sep, k + 1);
    }
}

/// Finds the first occurrence of `sep`.
pub fn find_char(v: &Vec<char>, sep: char) -> (r: Option<usize>)
    ensures
        match r {
            Some(i) => i < v.len() && i == position_from(v@, sep, 0),
            None => position_from(v@, sep, 0) == v.len(),
        },
{
    let mut i: usize = 0;
    while i < v.len()
        invariant
            i <= v.len(),
            position_from(v@, sep, 0) == position_from(v@, sep, i as int),
        decreases v.len() - i,
    {
        if v[i] == sep {
            return Some(i);
        }
        i += 1;
    }
    None
}

/// Splits at the first `sep`; the separator itself is dropped.
pub fn split_once(v: &Vec<char>, sep: char) -> (r: Option<(Vec<char>, Vec<char>)>)
    ensures
        match r {
            Some((before, after)) => split_at_first(v@, sep) == Some((before@, after@)),
            None => split_at_first(v@, sep) is None,
        },
{
    match find_char(v, sep) {
        Some(i) => {
            let before = slice_of(v, 0, i);
            let after = slice_of(v, i + 1, v.len());
            Some((before, after))
        },
        None => None,
    }
}

/// Splits a string at the first `sep`; the separator itself is dropped.
pub fn split_once_str<'a>(s: &'a str, sep: char) -> (r: Option<(&'a str, &'a str)>)
    ensures
        match r {
            Some((before, after)) => split_at_first(s@, sep) == Some((before@, after@)),
            None => split_at_first(s@, sep) is None,
        },
{
    let chars = chars_of(s);
    match find_char(&chars, sep) {
        Some(i) => {
            let before = s.substring_char(0, i);
            let after = s.substring_char(i + 1, chars.len());
            proof {
                assert(s@.take(i as int) =~= s@.subrange(0, i as int));
                assert(s@.skip(i + 1) =~= s@.subrange(i + 1, s@.len() as int));
            }
            Some((before, after))
        },
        None => None,
    }
}

/// Whether `c` is one of `'0'..='9'`.
pub open spec fn is_digit(c: char) -> bool {
    '0' <= c <= '9'
}

/// Whether `s` consists of decimal digits only.
pub open spec fn all_digits(s: Seq<char>) -> bool {
    forall|i: int| 0 <= i < s.len() ==> is_digit(#[trigger] s[i])
}

/// The number that a sequence of decimal digits denotes.
pub open spec fn decimal_value(s: Seq<char>) -> nat
    decreases s.len(),
{
    if s.len() == 0 {
        0
    } else {
        (decimal_value(s.drop_last()) * 10 + (s.last() as int - '0' as int)) as nat
    }
}

/// The digits of a literal once an optional leading `+` is taken off.
pub open spec fn unsigned_body(s: Seq<char>) -> Seq<char> {
    if s.len() > 0 && s[0] == '+' {
        s.drop_first()
    } else {
        s
    }
}

/// What an unsigned decimal literal denotes: an optional `+`, then at least
/// one digit and nothing else.
pub open spec fn unsigned_literal(s: Seq<char>) -> Option<nat> {
    let body = unsigned_body(s);
    if body.len() > 0 && all_digits(body) {
        Some(decimal_value(body))
    } else {
        None
    }
}

/// What a signed decimal literal denotes: an optional `+` or `-`, then at
/// least one digit and nothing else.
pub open spec fn signed_literal(s: Seq<char>) -> Option<int> {
    if s.len() > 0 && s[0] == '-' {
        let body = s.drop_first();
        if body.len() > 0 && all_digits(body) {
            Some(-(decimal_value(body) as int))
        } else {
            None
        }
    } else {
        match unsigned_literal(s) {
            Some(n) => Some(n as int),
            None => None,
        }
    }
}

proof fn lemma_decimal_prefix(s: Seq<char>, k: int)
    requires
        0 <= k <= s.len(),
        all_digits(s),
    ensures
        decimal_value(s.take(k)) <= decimal_value(s),
    decreases s.len() - k,
{
    if k < s.len() {
        lemma_decimal_prefix(s, k + 1);
        assert(s.take(k + 1).drop_last() =~= s.take(k));
        assert(is_digit(s[k]));
    } else {
        assert(s.take(k) =~= s);
    }
}

/// Reads the digits `v[from..]` as a number; `None` if there is no digit,
/// something that is no digit, or a value beyond `u128`.
fn parse_digits(v: &Vec<char>, from: usize) -> (r: Option<u128>)
    requires
        from <= v.len(),
    ensures
        ({
            let body = v@.subrange(from as int, v.len() as int);
            match r {
                Some(n) => body.len() > 0 && all_digits(body) && decimal_value(body) == n,
                None => !(body.len() > 0 && all_digits(body) && decimal_value(body) <= u128::MAX),
            }
        }),
{
    let ghost body = v@.subrange(from as int, v.len() as int);
    if from == v.len() {
        return None;
    }
    let mut acc: u128 = 0;
    let mut i = from;
    while i < v.len()
        invariant
            from <= i <= v.len(),
            body == v@.subrange(from as int, v.len() as int),
            all_digits(body.take(i - from)),
            acc == decimal_value(body.take(i - from)),
        decreases v.len() - i,
    {
        let c = v[i];
        proof {
            assert(body[i - from] == c);
            assert(body.take(i - from + 1).drop_last() =~= body.take(i - from));
            assert(body.take(i - from + 1).last() == c);
        }
        if c < '0' || c > '9' {
            return None;
        }
        let d = (c as u32 - '0' as u32) as u128;
        let next = match acc.checked_mul(10) {
            Some(m) => m.checked_add(d),
            None => None,
        };
        proof {
            assert forall|j: int| 0 <= j < i - from + 1 implies is_digit(#[trigger] body.take(i - from + 1)[j]) by {
                if j < i - from {
                    assert(body.take(i - from)[j] == body[j]);
                }
            }
        }
        match next {
            Some(n) => {
                acc = n;
            },
            None => {
                proof {
                    if all_digits(body) {
                        lemma_decimal_prefix(body, i - from + 1);
                    }
                }
                return None;
            },
        }
        i += 1;
    }
    proof {
        assert(body.take(i - from) =~= body);
    }
    Some(acc)
}

/// Parses an unsigned decimal literal.
pub fn parse_u128(v: &Vec<char>) -> (r: Option<u128>)
    ensures
        r == match unsigned_literal(v@) {
            Some(n) => if n <= u128::MAX {
                Some(n as u128)
            } else {
                None
            },
            None => None,
        },
{
    let from: usize = if v.len() > 0 && v[0] == '+' {
        1
    } else {
        0
    };
    proof {
        assert(unsigned_body(v@) =~= v@.subrange(from as int, v.len() as int));
    }
    parse_digits(v, from)
}

/// Parses an unsigned decimal literal that fits in 32 bits.
pub fn parse_u32(v: &Vec<char>) -> (r: Option<u32>)
    ensures
        r == match unsigned_literal(v@) {
            Some(n) => if n <= u32::MAX {
                Some(n as u32)
            } else {
                None
            },
            None => None,
        },
{
    match parse_u128(v) {
        Some(n) => if n <= 0xffff_ffff {
            Some(n as u32)
        } else {
            None
        },
        None => None,
    }
}

/// Parses an unsigned decimal literal that fits in a `usize`.
pub fn parse_usize(v: &Vec<char>) -> (r: Option<usize>)
    ensures
        r == match unsigned_literal(v@) {
            Some(n) => if n <= usize::MAX {
                Some(n as usize)
            } else {
                None
            },
            None => None,
        },
{
    match parse_u128(v) {
        Some(n) => if n <= usize::MAX as u128 {
            Some(n as usize)
        } else {
            None
        },
        None => None,
    }
}

/// Parses a signed decimal literal that fits in 32 bits.
pub fn parse_i32(v: &Vec<char>) -> (r: Option<i32>)
    ensures
        r == match signed_literal(v@) {
            Some(n) => if i32::MIN <= n <= i32::MAX {
                Some(n as i32)
            } else {
                None
            },
            None => None,
        },
{
    if v.len() > 0 && v[0] == '-' {
        proof {
            assert(v@.drop_first() =~= v@.subrange(1, v.len() as int));
        }
        match parse_digits(v, 1) {
            Some(n) => if n <= 0x8000_0000 {
                Some((-(n as i64)) as i32)
            } else {
                None
            },
            None => None,
        }
    } else {
        match parse_u128(v) {
            Some(n) => if n <= 0x7fff_ffff {
                Some(n as i32)
            } else {
                None
            },
            None => None,
        }
    }
}


/// Whether `c` is white space, as Unicode defines it.
pub open spec fn is_space(c: char) -> bool {
    ||| '\u{9}' <= c <= '\u{d}'
    ||| c == ' '
    ||| c == '\u{85}'
    ||| c == '\u{a0}'
    ||| c == '\u{1680}'
    ||| '\u{2000}' <= c <= '\u{200a}'
    ||| c == '\u{2028}'
    ||| c == '\u{2029}'
    ||| c == '\u{202f}'
    ||| c == '\u{205f}'
    ||| c == '\u{3000}'
}

/// Number of white-space characters at the start of `s[k..]`.
pub open spec fn leading_spaces(s: Seq<char>, k: int) -> int
    decreases s.len() - k,
{
    if 0 <= k < s.len() && is_space(s[k]) {
        1 + leading_spaces(s, k + 1)
    } else {
        0
    }
}

/// Number of white-space characters at the end of `s[..k]`.
pub open spec fn trailing_spaces(s: Seq<char>, k: int) -> int
    decreases k,
{
    if 0 < k <= s.len() && is_space(s[k - 1]) {
        1 + trailing_spaces(s, k - 1)
    } else {
        0
    }
}

/// `s` without the white space at its start and at its end.
pub open spec fn trimmed(s: Seq<char>) -> Seq<char> {
    let from = leading_spaces(s, 0);
    if from >= s.len() {
        Seq::empty()
    } else {
        s.subrange(from, s.len() - trailing_spaces(s, s.len() as int))
    }
}

/// `cur` as a list of one word, or of none if it is empty.
pub open spec fn closed_word(cur: Seq<char>) -> Seq<Seq<char>> {
    if cur.len() > 0 {
        seq![cur]
    } else {
        Seq::empty()
    }
}

/// The words of `s[k..]`, where `cur` holds the characters of a word that
/// began before `k`.
pub open spec fn words_from(s: Seq<char>, k: int, cur: Seq<char>) -> Seq<Seq<char>>
    decreases s.len() - k,
{
    if k < 0 || k >= s.len() {
        closed_word(cur)
    } else if is_space(s[k]) {
        closed_word(cur) + words_from(s, k + 1, Seq::empty())
    } else {
        words_from(s, k + 1, cur.push(s[k]))
    }
}

/// The words of a text: its longest runs of characters that are no white
/// space, in order.
pub open spec fn words_of(s: Seq<char>) -> Seq<Seq<char>> {
    words_from(s, 0, Seq::empty())
}

/// The texts that a list of character vectors holds.
pub open spec fn texts(words: Seq<Vec<char>>) -> Seq<Seq<char>> {
    Seq::new(words.len(), |i: int| words[i]@)
}

/// Whether `c` is white space.
pub fn is_whitespace(c: char) -> (r: bool)
    ensures
        r == is_space(c),
{
    (c >= '\u{9}' && c <= '\u{d}') || c == ' ' || c == '\u{85}' || c == '\u{a0}' || c == '\u{1680}' || (c
        >= '\u{2000}' && c <= '\u{200a}') || c == '\u{2028}' || c == '\u{2029}' || c == '\u{202f}' || c
        == '\u{205f}' || c == '\u{3000}'
}

/// Splits a text into its words.
pub fn split_whitespace(v: &Vec<char>) -> (words: Vec<Vec<char>>)
    ensures
        texts(words@) == words_of(v@),
{
    let mut words: Vec<Vec<char>> = Vec::new();
    let mut cur: Vec<char> = Vec::new();
    let mut k: usize = 0;
    while k < v.len()
        invariant
            k <= v.len(),
            texts(words@) + words_from(v@, k as int, cur@) == words_of(v@),
        decreases v.len() - k,
    {
        let c = v[k];
        if is_whitespace(c) {
            if cur.len() > 0 {
                let ghost before = words@;
                let ghost word = cur@;
                words.push(cur);
                cur = Vec::new();
                proof {
                    assert(texts(words@) =~= texts(before) + seq![word]);
                    assert(texts(words@) + words_from(v@, k + 1, cur@) =~= texts(before) + (closed_word(word)
                        + words_from(v@, k + 1, Seq::empty())));
                }
            } else {
                proof {
                    assert(cur@ =~= Seq::empty());
                    assert(texts(words@) + words_from(v@, k + 1, cur@) =~= texts(words@) + (closed_word(cur@)
                        + words_from(v@, k + 1, Seq::empty())));
                }
            }
        } else {
            cur.push(c);
        }
        k += 1;
    }
    if cur.len() > 0 {
        let ghost before = words@;
        let ghost word = cur@;
        words.push(cur);
        proof {
            assert(texts(words@) =~= texts(before) + seq![word]);
        }
    } else {
        proof {
            assert(texts(words@) + closed_word(cur@) =~= texts(words@));
        }
    }
    words
}

/// The string that holds the given characters, through the standard
/// library's `String::from_iter`, which appends the characters it is given
/// one after the other.
#[verifier::external_body]
pub(crate) fn string_of(chars: &Vec<char>) -> (s: String)
    ensures
        s@ == chars@,
{
    String::from_iter(chars.iter())
}

/// Whether a word reads `text`.
pub fn is_text(word: &Vec<char>, text: &str) -> (r: bool)
    ensures
        r == (word@ == text@),
{
    let other = chars_of(text);
    if word.len() != other.len() {
        return false;
    }
    let mut i: usize = 0;
    while i < word.len()
        invariant
            i <= word.len(),
            word.len() == other.len(),
            other@ == text@,
            forall|j: int| 0 <= j < i ==> word@[j] == other@[j],
        decreases word.len() - i,
    {
        if word[i] != other[i] {
            assert(word@[i as int] != text@[i as int]);
            return false;
        }
        i += 1;
    }
    assert(word@ =~= other@);
    true
}


proof fn lemma_trailing_spaces_bound(s: Seq<char>, k: int, from: int)
    requires
        0 <= from < k <= s.len(),
        !is_space(s[from]),
    ensures
        trailing_spaces(s, k) <= k - from - 1,
    decreases k,
{
    if is_space(s[k - 1]) {
        lemma_trailing_spaces_bound(s, k - 1, from);
    }
}

/// Takes the white space off both ends.
pub fn trim(v: &Vec<char>) -> (r: Vec<char>)
    ensures
        r@ == trimmed(v@),
{
    let mut from: usize = 0;
    while from < v.len() && is_whitespace(v[from])
        invariant
            from <= v.len(),
            leading_spaces(v@, 0) == from + leading_spaces(v@, from as int),
        decreases v.len() - from,
    {
        from += 1;
    }
    if from >= v.len() {
        return Vec::new();
    }
    let mut to: usize = v.len();
    proof {
        lemma_trailing_spaces_bound(v@, v.len() as int, from as int);
    }
    while to > 0 && is_whitespace(v[to - 1])
        invariant
            to <= v.len(),
            from < v.len(),
            trailing_spaces(v@, v.len() as int) == v.len() - to + trailing_spaces(v@, to as int),
            trailing_spaces(v@, v.len() as int) <= v.len() - from - 1,
        decreases to,
    {
        to -= 1;
    }
    slice_of(v, from, to)
}

} // verus!
