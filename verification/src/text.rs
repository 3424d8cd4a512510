//! The pieces of std's text handling that the line protocol relies on, each
//! stated exactly as std documents it: Unicode white space, `str::trim`,
//! `str::split_whitespace`, splitting on a character, `u32::from_str` and
//! the decimal rendering of a `u32`.
use vstd::prelude::*;

verus! {

/// The Unicode `White_Space` property (PropList.txt), which is what
/// `char::is_whitespace`, `str::trim` and `str::split_whitespace` go by.
pub open spec fn is_white_space(c: char) -> bool {
    let n = c as u32;
    ||| 0x09 <= n <= 0x0D
    ||| n == 0x20
    ||| n == 0x85
    ||| n == 0xA0
    ||| n == 0x1680
    ||| 0x2000 <= n <= 0x200A
    ||| n == 0x2028
    ||| n == 0x2029
    ||| n == 0x202F
    ||| n == 0x205F
    ||| n == 0x3000
}

/// `s` without its leading white space.
pub open spec fn trim_start(s: Seq<char>) -> Seq<char>
    decreases s.len(),
{
    if s.len() > 0 && is_white_space(s[0]) {
        trim_start(s.drop_first())
    } else {
        s
    }
}

/// `s` without its trailing white space.
pub open spec fn trim_end(s: Seq<char>) -> Seq<char>
    decreases s.len(),
{
    if s.len() > 0 && is_white_space(s.last()) {
        trim_end(s.drop_last())
    } else {
        s
    }
}

/// `s` without its leading and trailing white space.
pub open spec fn trimmed(s: Seq<char>) -> Seq<char> {
    trim_end(trim_start(s))
}

/// The word being read, `cur`, as a list of at most one word.
pub open spec fn pending_word(cur: Seq<char>) -> Seq<Seq<char>> {
    if cur.len() == 0 {
        Seq::empty()
    } else {
        seq![cur]
    }
}

/// The maximal runs of non-white-space characters of `s`, in order, the
/// first of them continuing the partial word `cur`.
pub open spec fn words_from(s: Seq<char>, cur: Seq<char>) -> Seq<Seq<char>>
    decreases s.len(),
{
    if s.len() == 0 {
        pending_word(cur)
    } else if is_white_space(s[0]) {
        pending_word(cur) + words_from(s.drop_first(), Seq::empty())
    } else {
        words_from(s.drop_first(), cur.push(s[0]))
    }
}

/// The words of `s`: what `str::split_whitespace` yields.
pub open spec fn words(s: Seq<char>) -> Seq<Seq<char>> {
    words_from(s, Seq::empty())
}

/// The pieces of `s` between occurrences of `sep`, the first of them
/// continuing the partial piece `cur`.
pub open spec fn pieces_from(s: Seq<char>, sep: char, cur: Seq<char>) -> Seq<Seq<char>>
    decreases s.len(),
{
    if s.len() == 0 {
        seq![cur]
    } else if s[0] == sep {
        seq![cur] + pieces_from(s.drop_first(), sep, Seq::empty())
    } else {
        pieces_from(s.drop_first(), sep, cur.push(s[0]))
    }
}

/// The pieces of `s` between occurrences of `sep`: what `str::split(sep)` yields.
pub open spec fn pieces(s: Seq<char>, sep: char) -> Seq<Seq<char>> {
    pieces_from(s, sep, Seq::empty())
}

/// An ASCII decimal digit.
pub open spec fn is_digit(c: char) -> bool {
    '0' <= c && c <= '9'
}

/// The value of the decimal digit `c`.
pub open spec fn digit_value(c: char) -> nat {
    (c as u32 - '0' as u32) as nat
}

/// The character of the decimal digit `d` (below ten).
pub open spec fn digit_char(d: nat) -> char {
    ('0' as u32 + d) as char
}

/// The number that the decimal digits `d` write.
pub open spec fn digits_value(d: Seq<char>) -> nat
    decreases d.len(),
{
    if d.len() == 0 {
        0
    } else {
        digits_value(d.drop_last()) * 10 + digit_value(d.last())
    }
}

/// What `u32::from_str` gives: `Some(n)` where `s` is an optional `+`
/// followed by at least one ASCII digit, together writing `n`, which fits in a
/// `u32`; `None` otherwise.
pub open spec fn parsed_u32(s: Seq<char>) -> Option<u32> {
    let d = if s.len() > 0 && s[0] == '+' {
        s.drop_first()
    } else {
        s
    };
    if d.len() > 0 && (forall|i: int| 0 <= i < d.len() ==> is_digit(#[trigger] d[i]))
        && digits_value(d) <= u32::MAX {
        Some(digits_value(d) as u32)
    } else {
        None
    }
}

/// The decimal rendering of `n`, without sign or leading zeros.
pub open spec fn decimal(n: nat) -> Seq<char>
    decreases n,
{
    if n < 10 {
        seq![digit_char(n)]
    } else {
        decimal(n / 10).push(digit_char(n % 10))
    }
}

/// `str::trim`: `s` without leading and trailing Unicode white space.
#[verifier::external_body]
pub(crate) fn trim(s: &str) -> (t: &str)
    ensures
        t@ == trimmed(s@),
{
    s.trim()
}

/// `str::split_whitespace`, collected: the words of `s`, in order.
#[verifier::external_body]
pub(crate) fn split_whitespace(s: &str) -> (parts: Vec<&str>)
    ensures
        parts@.map_values(|p: &str| p@) == words(s@),
{
    s.split_whitespace().collect()
}

/// `str::split` on a character, collected: the pieces of `s` between the
/// occurrences of `sep`, in order, empty pieces included.
#[verifier::external_body]
pub(crate) fn split_on(s: &str, sep: char) -> (parts: Vec<&str>)
    ensures
        parts@.map_values(|p: &str| p@) == pieces(s@, sep),
{
    s.split(sep).collect()
}

/// `u32::from_str`, with its error dropped: `Some` exactly where
/// `parsed_u32` says so.
#[verifier::external_body]
pub(crate) fn parse_u32(s: &str) -> (n: Option<u32>)
    ensures
        n == parsed_u32(s@),
{
    s.parse::<u32>().ok()
}

/// `u32::to_string`: the decimal rendering of `n`.
#[verifier::external_body]
pub(crate) fn decimal_string(n: u32) -> (s: String)
    ensures
        s@ == decimal(n as nat),
{
    n.to_string()
}

/// `str`'s `==`: the two strings hold the same characters.
#[verifier::external_body]
pub(crate) fn str_equal(a: &str, b: &str) -> (eq: bool)
    ensures
        eq == (a@ == b@),
{
    a == b
}

// ---------------------------------------------------------------------
// Facts about the specifications above.

/// The digit character of a value below ten is a digit with that value.
pub proof fn lemma_digit_char(d: nat)
    requires
        d < 10,
    ensures
        is_digit(digit_char(d)),
        digit_value(digit_char(d)) == d,
{
    assert(('0' as u32 + d) < 0xD800);
    assert((('0' as u32 + d) as char) as u32 == '0' as u32 + d);
}

/// Every character of a decimal rendering is a digit, and the digits write
/// the number back.
pub proof fn lemma_decimal_digits(n: nat)
    ensures
        decimal(n).len() > 0,
        forall|i: int| 0 <= i < decimal(n).len() ==> is_digit(#[trigger] decimal(n)[i]),
        digits_value(decimal(n)) == n,
    decreases n,
{
    lemma_digit_char(n % 10);
    if n < 10 {
        assert(n % 10 == n);
        assert(decimal(n).drop_last() =~= Seq::<char>::empty());
        assert(digits_value(decimal(n)) == digits_value(Seq::<char>::empty()) * 10 + digit_value(
            digit_char(n),
        ));
    } else {
        lemma_decimal_digits(n / 10);
        let d = decimal(n);
        assert(d.drop_last() =~= decimal(n / 10));
        assert forall|i: int| 0 <= i < d.len() implies is_digit(#[trigger] d[i]) by {
            if i < d.len() - 1 {
                assert(d[i] == decimal(n / 10)[i]);
            }
        }
        assert(d.last() == digit_char(n % 10));
        assert(digits_value(d) == (n / 10) * 10 + n % 10);
        assert(n == (n / 10) * 10 + n % 10) by (nonlinear_arith);
    }
}

/// `u32::from_str` reads back what `u32::to_string` writes.
pub proof fn lemma_parse_decimal(n: u32)
    ensures
        parsed_u32(decimal(n as nat)) == Some(n),
{
    lemma_decimal_digits(n as nat);
}

/// A run of characters that holds no `sep` only extends the current piece.
pub proof fn lemma_pieces_without_sep(s: Seq<char>, sep: char, cur: Seq<char>)
    requires
        !s.contains(sep),
    ensures
        pieces_from(s, sep, cur) == seq![cur + s],
    decreases s.len(),
{
    if s.len() == 0 {
        assert(cur + s =~= cur);
    } else {
        assert(!s.drop_first().contains(sep)) by {
            if s.drop_first().contains(sep) {
                let i = choose|i: int| 0 <= i < s.drop_first().len() && s.drop_first()[i] == sep;
                assert(s[i + 1] == sep);
            }
        }
        assert(s[0] != sep) by {
            if s[0] == sep {
                assert(s.contains(sep));
            }
        }
        lemma_pieces_without_sep(s.drop_first(), sep, cur.push(s[0]));
        assert(cur.push(s[0]) + s.drop_first() =~= cur + s);
    }
}

/// Splitting `a`, `sep`, `b` on `sep`, where neither `a` nor `b` holds `sep`,
/// gives the two pieces `a` and `b`.
pub proof fn lemma_pieces_of_pair(a: Seq<char>, sep: char, b: Seq<char>)
    requires
        !a.contains(sep),
        !b.contains(sep),
    ensures
        pieces(a + seq![sep] + b, sep) == seq![a, b],
{
    lemma_pieces_pair_from(a, sep, b, Seq::empty());
    assert(Seq::<char>::empty() + a =~= a);
}

proof fn lemma_pieces_pair_from(a: Seq<char>, sep: char, b: Seq<char>, cur: Seq<char>)
    requires
        !a.contains(sep),
        !b.contains(sep),
    ensures
        pieces_from(a + seq![sep] + b, sep, cur) == seq![cur + a, b],
    decreases a.len(),
{
    let s = a + seq![sep] + b;
    if a.len() == 0 {
        assert(s.drop_first() =~= b);
        assert(s[0] == sep);
        lemma_pieces_without_sep(b, sep, Seq::empty());
        assert(Seq::<char>::empty() + b =~= b);
        assert(cur + a =~= cur);
        assert(seq![cur] + seq![b] =~= seq![cur + a, b]);
    } else {
        assert(a[0] != sep) by {
            if a[0] == sep {
                assert(a.contains(sep));
            }
        }
        assert(!a.drop_first().contains(sep)) by {
            if a.drop_first().contains(sep) {
                let i = choose|i: int| 0 <= i < a.drop_first().len() && a.drop_first()[i] == sep;
                assert(a[i + 1] == sep);
            }
        }
        assert(s.drop_first() =~= a.drop_first() + seq![sep] + b);
        assert(s[0] == a[0]);
        lemma_pieces_pair_from(a.drop_first(), sep, b, cur.push(a[0]));
        assert(cur.push(a[0]) + a.drop_first() =~= cur + a);
    }
}

} // verus!
