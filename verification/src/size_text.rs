//! Sizes as text: a decimal number with an optional `k` or `m` suffix.
use vstd::prelude::*;

verus! {

/// `c` has the Unicode property `White_Space`.
pub open spec fn white_space(c: char) -> bool {
    ||| '\u{9}' <= c <= '\u{D}'
    ||| c == '\u{20}'
    ||| c == '\u{85}'
    ||| c == '\u{A0}'
    ||| c == '\u{1680}'
    ||| '\u{2000}' <= c <= '\u{200A}'
    ||| c == '\u{2028}'
    ||| c == '\u{2029}'
    ||| c == '\u{202F}'
    ||| c == '\u{205F}'
    ||| c == '\u{3000}'
}

/// Tells whether `c` has the Unicode property `White_Space`.
pub fn is_white_space(c: char) -> (r: bool)
    ensures
        r == white_space(c),
{
    ('\u{9}' <= c && c <= '\u{D}') || c == '\u{20}' || c == '\u{85}' || c == '\u{A0}' || c
        == '\u{1680}' || ('\u{2000}' <= c && c <= '\u{200A}') || c == '\u{2028}' || c == '\u{2029}'
        || c == '\u{202F}' || c == '\u{205F}' || c == '\u{3000}'
}

/// The text without white space at its ends.
pub open spec fn trimmed(s: Seq<char>) -> Seq<char>
    decreases s.len(),
{
    if s.len() == 0 {
        s
    } else if white_space(s.first()) {
        trimmed(s.drop_first())
    } else if white_space(s.last()) {
        trimmed(s.drop_last())
    } else {
        s
    }
}

/// `c` is an ASCII digit.
pub open spec fn is_digit(c: char) -> bool {
    '0' <= c <= '9'
}

/// The value of a string of digits.
pub open spec fn digits_value(s: Seq<char>) -> int
    decreases s.len(),
{
    if s.len() == 0 {
        0
    } else {
        10 * digits_value(s.drop_last()) + (s.last() as int - '0' as int)
    }
}

/// The text without a leading plus sign.
pub open spec fn unsigned(s: Seq<char>) -> Seq<char> {
    if s.len() > 0 && s[0] == '+' {
        s.drop_first()
    } else {
        s
    }
}

/// The value of a decimal number: digits, at least one, behind an optional plus
/// sign.
pub open spec fn number(s: Seq<char>) -> Option<int> {
    let digits = unsigned(s);
    if digits.len() > 0 && forall|i: int| 0 <= i < digits.len() ==> is_digit(#[trigger] digits[i]) {
        Some(digits_value(digits))
    } else {
        None
    }
}

/// What a suffix multiplies by; one where `c` is none.
pub open spec fn multiplier(c: char) -> int {
    if c == 'k' || c == 'K' {
        1024
    } else if c == 'm' || c == 'M' {
        0x10_0000
    } else {
        1
    }
}

/// The size that a text stands for: a number that fits in `usize`, times the
/// multiplier of its suffix. White space around the whole is ignored.
pub open spec fn size_of_text(s: Seq<char>) -> Option<int> {
    let t = trimmed(s);
    if t.len() == 0 {
        None
    } else {
        let mult = multiplier(t.last());
        let num = if mult == 1 {
            t
        } else {
            t.drop_last()
        };
        match number(num) {
            Some(n) => if n <= usize::MAX {
                Some(n * mult)
            } else {
                None
            },
            None => None,
        }
    }
}

/// A prefix of a string of digits is worth no more than the whole.
proof fn lemma_digits_grow(s: Seq<char>, j: int)
    requires
        0 <= j <= s.len(),
        forall|i: int| 0 <= i < s.len() ==> is_digit(#[trigger] s[i]),
    ensures
        0 <= digits_value(s.take(j)) <= digits_value(s),
    decreases s.len(),
{
    if j == s.len() {
        assert(s.take(j) =~= s);
        if j > 0 {
            let t = s.drop_last();
            assert forall|i: int| 0 <= i < t.len() implies is_digit(#[trigger] t[i]) by {
                assert(t[i] == s[i]);
            }
            assert(is_digit(s[s.len() - 1]));
            lemma_digits_grow(t, t.len() as int);
            assert(t.take(t.len() as int) =~= t);
        }
    } else {
        let t = s.drop_last();
        assert forall|i: int| 0 <= i < t.len() implies is_digit(#[trigger] t[i]) by {
            assert(t[i] == s[i]);
        }
        assert(is_digit(s[s.len() - 1]));
        lemma_digits_grow(t, j);
        assert(t.take(j) =~= s.take(j));
    }
}

/// Reads the number that stands in `s` from `from` to `to`; nothing where there
/// is none, or where it does not fit.
fn read_number(s: &str, from: usize, to: usize) -> (r: Option<usize>)
    requires
        from <= to <= s@.len(),
    ensures
        match number(s@.subrange(from as int, to as int)) {
            Some(n) => if n <= usize::MAX {
                r matches Some(v) && v == n
            } else {
                r is None
            },
            None => r is None,
        },
{
    let ghost text = s@.subrange(from as int, to as int);
    let ghost digits = unsigned(text);
    let mut start: usize = from;
    if from < to && s.get_char(from) == '+' {
        start = from + 1;
    }
    assert(digits =~= s@.subrange(start as int, to as int));
    if start == to {
        return None;
    }
    let mut value: usize = 0;
    let mut i: usize = start;
    assert(digits.take(0) =~= Seq::empty());
    while i < to
        invariant
            start <= i <= to <= s@.len(),
            start < to,
            digits == s@.subrange(start as int, to as int),
            digits == unsigned(text),
            text == s@.subrange(from as int, to as int),
            forall|j: int| 0 <= j < i - start ==> is_digit(#[trigger] digits[j]),
            value == digits_value(digits.take(i - start)),
        decreases to - i,
    {
        let c: char = s.get_char(i);
        assert(c == digits[i - start]);
        if c < '0' || '9' < c {
            return None;
        }
        let d: usize = c as usize - '0' as usize;
        let ghost next = digits.take(i - start + 1);
        proof {
            assert(next.drop_last() =~= digits.take(i - start));
            assert(next.last() == c);
            assert(digits_value(next) == 10 * value + d);
            if forall|j: int| 0 <= j < digits.len() ==> is_digit(#[trigger] digits[j]) {
                lemma_digits_grow(digits, i - start + 1);
            }
        }
        let shifted: usize = match value.checked_mul(10) {
            Some(v) => v,
            None => {
                return None;
            },
        };
        value =
        match shifted.checked_add(d) {
            Some(v) => v,
            None => {
                return None;
            },
        };
        i = i + 1;
    }
    assert(digits.take(i - start) =~= digits);
    Some(value)
}

/// What a text says of a size.
#[derive(Debug, Clone, Copy, PartialEq, Eq, Structural)]
pub enum SizeText {
    /// It stands for this size.
    Size(usize),
    /// It stands for a size that does not fit in `usize`, though its number
    /// does.
    TooLarge,
    /// It stands for no size.
    Invalid,
}

/// Reads a size, for every text.
pub fn read_size(s: &str) -> (r: SizeText)
    ensures
        r == match size_of_text(s@) {
            Some(n) => if n <= usize::MAX {
                SizeText::Size(n as usize)
            } else {
                SizeText::TooLarge
            },
            None => SizeText::Invalid,
        },
{
    let n: usize = s.unicode_len();
    let mut from: usize = 0;
    let mut to: usize = n;
    assert(s@.subrange(0, n as int) =~= s@);
    while from < to && is_white_space(s.get_char(from))
        invariant
            from <= to == s@.len(),
            trimmed(s@.subrange(from as int, to as int)) == trimmed(s@),
        ensures
            from <= to == s@.len(),
            trimmed(s@.subrange(from as int, to as int)) == trimmed(s@),
            from < to ==> !white_space(s@[from as int]),
        decreases to - from,
    {
        proof {
            let t = s@.subrange(from as int, to as int);
            assert(t.drop_first() =~= s@.subrange(from + 1, to as int));
            assert(white_space(t.first()));
        }
        from = from + 1;
    }
    while from < to && is_white_space(s.get_char(to - 1))
        invariant
            from <= to <= s@.len(),
            trimmed(s@.subrange(from as int, to as int)) == trimmed(s@),
            from < to ==> !white_space(s@[from as int]),
        ensures
            from <= to <= s@.len(),
            trimmed(s@.subrange(from as int, to as int)) == trimmed(s@),
            from < to ==> !white_space(s@[from as int]) && !white_space(s@[to - 1]),
        decreases to - from,
    {
        proof {
            let t = s@.subrange(from as int, to as int);
            assert(t.drop_last() =~= s@.subrange(from as int, to - 1));
            assert(white_space(t.last()));
        }
        to = to - 1;
    }
    let ghost t = s@.subrange(from as int, to as int);
    assert(trimmed(t) == t);
    if from == to {
        return SizeText::Invalid;
    }
    let c: char = s.get_char(to - 1);
    assert(c == t.last());
    let (end, mult): (usize, usize) = if c == 'k' || c == 'K' {
        (to - 1, 1024)
    } else if c == 'm' || c == 'M' {
        (to - 1, 1024 * 1024)
    } else {
        (to, 1)
    };
    assert(s@.subrange(from as int, to - 1) =~= t.drop_last());
    match read_number(s, from, end) {
        Some(n) => match n.checked_mul(mult) {
            Some(size) => SizeText::Size(size),
            None => SizeText::TooLarge,
        },
        None => SizeText::Invalid,
    }
}

/// Reads a size; nothing where the text stands for none.
pub fn parse_size(s: &str) -> (r: Option<usize>)
    requires
        size_of_text(s@) matches Some(n) ==> n <= usize::MAX,
    ensures
        r == match size_of_text(s@) {
            Some(n) => Some(n as usize),
            None => None,
        },
{
    match read_size(s) {
        SizeText::Size(n) => Some(n),
        _ => None,
    }
}

/// Law: white space around a text is dropped, all of it and nothing else.
pub proof fn lemma_trim(x: Seq<char>, t: Seq<char>, y: Seq<char>)
    requires
        forall|i: int| 0 <= i < x.len() ==> white_space(#[trigger] x[i]),
        forall|i: int| 0 <= i < y.len() ==> white_space(#[trigger] y[i]),
        t.len() > 0 ==> !white_space(t.first()) && !white_space(t.last()),
    ensures
        trimmed(x + t + y) == t,
        size_of_text(x + t + y) == size_of_text(t),
    decreases x.len() + y.len(), y.len(),
{
    let s = x + t + y;
    if x.len() > 0 {
        assert(s.first() == x[0]);
        assert(s.drop_first() =~= x.drop_first() + t + y);
        assert forall|i: int| 0 <= i < x.drop_first().len() implies white_space(
            #[trigger] x.drop_first()[i],
        ) by {
            assert(x.drop_first()[i] == x[i + 1]);
        }
        lemma_trim(x.drop_first(), t, y);
    } else if y.len() > 0 {
        assert(s.last() == y[y.len() - 1]);
        assert(s.drop_last() =~= x + t + y.drop_last());
        assert forall|i: int| 0 <= i < y.drop_last().len() implies white_space(
            #[trigger] y.drop_last()[i],
        ) by {
            assert(y.drop_last()[i] == y[i]);
        }
        lemma_trim(x, t, y.drop_last());
        if white_space(s.first()) && t.len() == 0 {
            assert(s =~= y);
            lemma_trim(y, Seq::empty(), Seq::empty());
            assert(y + Seq::<char>::empty() + Seq::<char>::empty() =~= y);
            assert(t =~= Seq::empty());
        } else {
            assert(s.first() == t.first());
        }
    } else {
        assert(s =~= t);
    }
    assert(trimmed(t) == t);
}

/// Law: which texts are numbers, and their values. A digit behind a number
/// multiplies it by ten and adds to it; a plus sign before digits changes
/// nothing; a text without digits, or with any other character, is no number.
pub proof fn lemma_number(t: Seq<char>, c: char)
    requires
        forall|i: int| 0 <= i < t.len() ==> '0' <= #[trigger] t[i] <= '9',
    ensures
        '0' <= c <= '9' ==> number(t.push(c)) == Some(
            10 * (if t.len() == 0 {
                0
            } else {
                number(t)->0
            }) + (c as int - 48),
        ),
        t.len() > 0 ==> number(t) is Some && number(seq!['+'] + t) == number(t),
        number(Seq::empty()) is None,
        number(seq!['+']) is None,
{
    assert(t.push(c).drop_last() =~= t);
    assert forall|i: int| 0 <= i < t.len() implies is_digit(#[trigger] t[i]) by {
    }
    if t.len() > 0 {
        assert('0' <= t[0] <= '9');
        assert(unsigned(t) == t);
        assert((seq!['+'] + t).drop_first() =~= t);
        assert(number(t) == Some(digits_value(t)));
    }
    if '0' <= c <= '9' {
        let p = t.push(c);
        assert(p[0] != '+');
        assert(unsigned(p) == p);
        assert forall|i: int| 0 <= i < p.len() implies is_digit(#[trigger] p[i]) by {
            if i < t.len() {
                assert(p[i] == t[i]);
            }
        }
        assert(number(p) == Some(digits_value(p)));
    }
    assert(seq!['+'].drop_first() =~= Seq::<char>::empty());
}

/// Law: a character that is no digit, other than a plus sign at the front, makes
/// a text no number.
pub proof fn lemma_no_number(t: Seq<char>, i: int)
    requires
        0 <= i < t.len(),
        !('0' <= t[i] <= '9'),
        !(i == 0 && t[0] == '+'),
    ensures
        number(t) is None,
{
    let digits = unsigned(t);
    let j = if t[0] == '+' {
        i - 1
    } else {
        i
    };
    assert(digits[j] == t[i]);
    assert(!is_digit(digits[j]));
}

/// Law: what size a text without white space around it stands for. A number
/// stands for itself, with `k` behind it for 1024 times and with `m` for
/// 1048576 times itself; a number that does not fit in `usize`, and all else,
/// stands for no size.
pub proof fn lemma_size_in_numbers(t: Seq<char>, c: char)
    requires
        t.len() > 0 ==> !white_space(t.first()),
    ensures
        size_of_text(Seq::empty()) is None,
        c == 'k' || c == 'K' ==> size_of_text(t.push(c)) == match number(t) {
            Some(n) => if n <= usize::MAX {
                Some(n * 1024)
            } else {
                None
            },
            None => None,
        },
        c == 'm' || c == 'M' ==> size_of_text(t.push(c)) == match number(t) {
            Some(n) => if n <= usize::MAX {
                Some(n * 1048576)
            } else {
                None
            },
            None => None,
        },
        c != 'k' && c != 'K' && c != 'm' && c != 'M' && !white_space(c) ==> size_of_text(t.push(c))
            == match number(t.push(c)) {
            Some(n) => if n <= usize::MAX {
                Some(n)
            } else {
                None
            },
            None => None,
        },
{
    let p = t.push(c);
    assert(p.drop_last() =~= t);
    if t.len() > 0 {
        assert(p.first() == t.first());
    }
    if !white_space(c) {
        assert(trimmed(p) == p);
    }
}

/// Law: which characters are white space, by their code points.
pub proof fn lemma_white_space(c: char)
    ensures
        white_space(c) <==> {
            let n = c as int;
            ||| 0x9 <= n <= 0xD
            ||| n == 0x20
            ||| n == 0x85
            ||| n == 0xA0
            ||| n == 0x1680
            ||| 0x2000 <= n <= 0x200A
            ||| n == 0x2028
            ||| n == 0x2029
            ||| n == 0x202F
            ||| n == 0x205F
            ||| n == 0x3000
        },
{
}

} // verus!
