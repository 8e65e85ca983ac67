//! Text as sequences of characters: trimming, splitting, and reading
//! decimal numbers.

use vstd::prelude::*;

verus! {

/// Whether `c` has the Unicode property White_Space.
pub uninterp spec fn unicode_whitespace(c: char) -> bool;

/// Calls `char::is_whitespace` of the standard library, which documents its
/// result as the White_Space property of the Unicode character database.
/// Nothing more is claimed than that the result is that property of `c`.
#[verifier::external_body]
fn is_whitespace(c: char) -> (white: bool)
    ensures
        white == unicode_whitespace(c),
{
    c.is_whitespace()
}

/// The characters of `text`, in order.
pub fn chars_of(text: &str) -> (chars: Vec<char>)
    ensures
        chars@ == text@,
{
    let mut chars: Vec<char> = Vec::new();
    for c in it: text.chars()
        invariant
            it.seq() == text@,
            chars@ == it.seq().take(it.index() as int),
    {
        let ghost k = it.index() as int;
        chars.push(c);
        proof {
            assert(it.seq().take(k + 1) =~= it.seq().take(k).push(c));
        }
    }
    proof {
        assert(text@.take(text@.len() as int) =~= text@);
    }
    chars
}

/// The number of white-space characters at the start of `s`.
pub open spec fn leading_spaces(s: Seq<char>) -> nat
    decreases s.len(),
{
    if s.len() > 0 && unicode_whitespace(s[0]) {
        1 + leading_spaces(s.drop_first())
    } else {
        0
    }
}

/// The number of white-space characters at the end of `s`.
pub open spec fn trailing_spaces(s: Seq<char>) -> nat
    decreases s.len(),
{
    if s.len() > 0 && unicode_whitespace(s.last()) {
        1 + trailing_spaces(s.drop_last())
    } else {
        0
    }
}

/// `s` without the white space at its start and at its end.
pub open spec fn trimmed(s: Seq<char>) -> Seq<char> {
    if leading_spaces(s) == s.len() {
        Seq::empty()
    } else {
        s.subrange(leading_spaces(s) as int, s.len() - trailing_spaces(s))
    }
}

/// Where the trimmed text starts and ends within `chars`.
pub fn trim_bounds(chars: &Vec<char>) -> (bounds: (usize, usize))
    ensures
        bounds.0 <= bounds.1 <= chars@.len(),
        trimmed(chars@) == chars@.subrange(bounds.0 as int, bounds.1 as int),
        bounds.0 == leading_spaces(chars@),
        bounds.0 < chars@.len() ==> bounds.1 == chars@.len() - trailing_spaces(chars@),
{
    let n = chars.len();
    let mut start: usize = 0;
    proof {
        assert(chars@.skip(0) =~= chars@);
    }
    while start < n && is_whitespace(chars[start])
        invariant
            n == chars@.len(),
            start <= n,
            leading_spaces(chars@) == start + leading_spaces(chars@.skip(start as int)),
        decreases n - start,
    {
        proof {
            let rest = chars@.skip(start as int);
            assert(rest[0] == chars@[start as int]);
            assert(rest.drop_first() =~= chars@.skip(start + 1));
        }
        start += 1;
    }
    proof {
        let rest = chars@.skip(start as int);
        if start < n {
            assert(rest[0] == chars@[start as int]);
        }
        assert(leading_spaces(rest) == 0);
    }
    if start == n {
        proof {
            assert(chars@.subrange(n as int, n as int) =~= Seq::<char>::empty());
        }
        return (n, n);
    }
    let mut end: usize = n;
    proof {
        assert(chars@.take(n as int) =~= chars@);
    }
    while is_whitespace(chars[end - 1])
        invariant
            n == chars@.len(),
            start < end <= n,
            !unicode_whitespace(chars@[start as int]),
            trailing_spaces(chars@) == (n - end) + trailing_spaces(chars@.take(end as int)),
        decreases end,
    {
        proof {
            let head = chars@.take(end as int);
            assert(head.last() == chars@[end - 1]);
            assert(head.drop_last() =~= chars@.take(end - 1));
        }
        end -= 1;
    }
    proof {
        let head = chars@.take(end as int);
        assert(head.last() == chars@[end - 1]);
        assert(trailing_spaces(head) == 0);
        assert(chars@.take(n as int) =~= chars@);
    }
    (start, end)
}

/// `text` without the white space at its start and at its end.
pub fn trim(text: &str) -> (inner: &str)
    ensures
        inner@ == trimmed(text@),
{
    let chars = chars_of(text);
    let (start, end) = trim_bounds(&chars);
    text.substring_char(start, end)
}

/// Whether `text` starts with `prefix`.
pub fn starts_with(text: &Vec<char>, prefix: &Vec<char>) -> (yes: bool)
    ensures
        yes == prefix@.is_prefix_of(text@),
{
    if prefix.len() > text.len() {
        return false;
    }
    let mut i: usize = 0;
    while i < prefix.len()
        invariant
            i <= prefix@.len() <= text@.len(),
            forall|k: int| 0 <= k < i ==> prefix@[k] == text@[k],
        decreases prefix@.len() - i,
    {
        if prefix[i] != text[i] {
            proof {
                assert(text@.subrange(0, prefix@.len() as int)[i as int] != prefix@[i as int]);
            }
            return false;
        }
        i += 1;
    }
    proof {
        assert(prefix@ =~= text@.subrange(0, prefix@.len() as int));
    }
    true
}

/// The pieces of `s` between occurrences of `sep`: one more piece than
/// there are occurrences, empty pieces included.
pub open spec fn split(s: Seq<char>, sep: char) -> Seq<Seq<char>>
    decreases s.len(),
{
    if s.len() == 0 {
        seq![Seq::empty()]
    } else {
        let before = split(s.drop_last(), sep);
        if s.last() == sep {
            before.push(Seq::empty())
        } else {
            before.update(before.len() - 1, before.last().push(s.last()))
        }
    }
}

/// The views of a sequence of pieces, in order.
pub open spec fn pieces_view(pieces: Seq<Vec<char>>) -> Seq<Seq<char>> {
    pieces.map_values(|piece: Vec<char>| piece@)
}

/// Splits `text` at every occurrence of `sep`.
pub fn split_at(text: &Vec<char>, sep: char) -> (pieces: Vec<Vec<char>>)
    ensures
        pieces_view(pieces@) == split(text@, sep),
        pieces@.len() >= 1,
{
    let mut pieces: Vec<Vec<char>> = Vec::new();
    let mut current: Vec<char> = Vec::new();
    let mut i: usize = 0;
    proof {
        assert(text@.take(0) =~= Seq::<char>::empty());
        assert(pieces_view(pieces@).push(current@) =~= split(text@.take(0), sep));
    }
    while i < text.len()
        invariant
            i <= text@.len(),
            pieces_view(pieces@).push(current@) == split(text@.take(i as int), sep),
        decreases text@.len() - i,
    {
        let ghost done = pieces_view(pieces@);
        let ghost piece = current@;
        let c = text[i];
        proof {
            let head = text@.take(i + 1);
            assert(head.drop_last() =~= text@.take(i as int));
            assert(head.last() == c);
        }
        if c == sep {
            pieces.push(current);
            current = Vec::new();
            proof {
                assert(pieces_view(pieces@) =~= done.push(piece));
            }
        } else {
            current.push(c);
            proof {
                assert(done.push(current@) =~= done.push(piece).update(
                    done.len() as int,
                    piece.push(c),
                ));
            }
        }
        i += 1;
    }
    proof {
        assert(text@.take(text@.len() as int) =~= text@);
    }
    let ghost done = pieces_view(pieces@);
    pieces.push(current);
    proof {
        assert(pieces_view(pieces@) =~= done.push(current@));
    }
    pieces
}

/// The views of a sequence of strings, in order.
pub open spec fn texts_view(texts: Seq<String>) -> Seq<Seq<char>> {
    texts.map_values(|text: String| text@)
}

/// Whether `c` is one of the ten decimal digits.
pub open spec fn is_digit(c: char) -> bool {
    '0' <= c && c <= '9'
}

/// The value of a decimal digit.
pub open spec fn digit_value(c: char) -> nat {
    (c as u32 - '0' as u32) as nat
}

/// Whether `s` holds decimal digits only.
pub open spec fn all_digits(s: Seq<char>) -> bool {
    forall|i: int| 0 <= i < s.len() ==> is_digit(#[trigger] s[i])
}

/// The number that a run of decimal digits writes.
pub open spec fn digits_value(s: Seq<char>) -> nat
    decreases s.len(),
{
    if s.len() == 0 {
        0
    } else {
        10 * digits_value(s.drop_last()) + digit_value(s.last())
    }
}

/// The number that `s` writes in decimal: an optional plus sign, then one
/// or more digits and nothing else.
pub open spec fn parsed_number(s: Seq<char>) -> Option<nat> {
    let digits = if s.len() > 0 && s[0] == '+' {
        s.drop_first()
    } else {
        s
    };
    if digits.len() > 0 && all_digits(digits) {
        Some(digits_value(digits))
    } else {
        None
    }
}

/// The number that `s` writes, when it fits the machine word.
pub open spec fn parsed_usize(s: Seq<char>) -> Option<usize> {
    match parsed_number(s) {
        Some(n) => if n <= usize::MAX {
            Some(n as usize)
        } else {
            None
        },
        None => None,
    }
}

proof fn lemma_digits_value_grows(s: Seq<char>, k: int)
    requires
        0 <= k <= s.len(),
    ensures
        digits_value(s.take(k)) <= digits_value(s),
    decreases s.len(),
{
    if k < s.len() {
        lemma_digits_value_grows(s.drop_last(), k);
        assert(s.drop_last().take(k) =~= s.take(k));
    } else {
        assert(s.take(k) =~= s);
    }
}

/// Reads `text` as a decimal number. `None` for anything but an optional
/// plus sign followed by digits, and for a number beyond the machine word.
pub fn parse_usize(text: &str) -> (value: Option<usize>)
    ensures
        value == parsed_usize(text@),
{
    let chars = chars_of(text);
    proof {
        assert(chars@.subrange(0, chars@.len() as int) =~= chars@);
    }
    parse_range(&chars, 0, chars.len())
}

/// Reads the characters of `chars` from `from` up to `to` as a decimal
/// number.
pub(crate) fn parse_range(chars: &Vec<char>, from: usize, to: usize) -> (value: Option<usize>)
    requires
        from <= to <= chars@.len(),
    ensures
        value == parsed_usize(chars@.subrange(from as int, to as int)),
{
    let ghost s = chars@.subrange(from as int, to as int);
    let start = if from < to && chars[from] == '+' {
        from + 1
    } else {
        from
    };
    let ghost digits = chars@.subrange(start as int, to as int);
    proof {
        if start == from {
            assert(digits =~= s);
        } else {
            assert(digits =~= s.drop_first());
        }
    }
    if start == to {
        return None;
    }
    let mut acc: usize = 0;
    let mut i: usize = start;
    proof {
        assert(digits.take(0) =~= Seq::<char>::empty());
    }
    while i < to
        invariant
            from <= start <= i <= to <= chars@.len(),
            start < to,
            digits == chars@.subrange(start as int, to as int),
            parsed_number(chars@.subrange(from as int, to as int)) == if all_digits(digits) {
                Some(digits_value(digits))
            } else {
                None
            },
            all_digits(digits.take(i - start)),
            acc == digits_value(digits.take(i - start)),
        decreases to - i,
    {
        let c = chars[i];
        let ghost k = i - start;
        proof {
            assert(digits[k] == c);
            assert(digits.take(k + 1).drop_last() =~= digits.take(k));
            assert(digits.take(k + 1).last() == c);
            lemma_digits_value_grows(digits, k + 1);
        }
        if !(c >= '0' && c <= '9') {
            proof {
                assert(!is_digit(digits[k]));
            }
            return None;
        }
        let d = (c as u32 - '0' as u32) as usize;
        let next = match acc.checked_mul(10) {
            Some(tens) => tens.checked_add(d),
            None => None,
        };
        match next {
            Some(v) => {
                acc = v;
            },
            None => {
                return None;
            },
        }
        proof {
            assert forall|j: int| 0 <= j < k + 1 implies is_digit(
                #[trigger] digits.take(k + 1)[j],
            ) by {
                if j < k {
                    assert(digits.take(k + 1)[j] == digits.take(k)[j]);
                }
            }
        }
        i += 1;
    }
    proof {
        assert(digits.take(to - start) =~= digits);
    }
    Some(acc)
}

} // verus!
