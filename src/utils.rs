//! The four textual notations of an address, and their normalisation.

use vstd::prelude::*;

verus! {

/// A hexadecimal digit of either case.
pub open spec fn is_hex_char(c: char) -> bool {
    ('0' <= c && c <= '9') || ('a' <= c && c <= 'f') || ('A' <= c && c <= 'F')
}

/// A lowercase hexadecimal digit.
pub open spec fn is_lower_hex_char(c: char) -> bool {
    ('0' <= c && c <= '9') || ('a' <= c && c <= 'f')
}

/// `c` with the uppercase letters `A`-`F` turned into `a`-`f`; any other
/// character is left as it is.
pub open spec fn lower_hex(c: char) -> char {
    if 'A' <= c && c <= 'F' {
        (((c as u8) + 32) as u8) as char
    } else {
        c
    }
}

/// Lowercases `s`, then drops every character that is not a hexadecimal digit.
pub open spec fn clean_chars(s: Seq<char>) -> Seq<char>
    decreases s.len(),
{
    if s.len() == 0 {
        Seq::empty()
    } else if is_hex_char(s.last()) {
        clean_chars(s.drop_last()).push(lower_hex(s.last()))
    } else {
        clean_chars(s.drop_last())
    }
}

/// Every `period`-th character of `s` is `sep`, and all the others are
/// hexadecimal digits.
pub open spec fn fits_grouping(s: Seq<char>, period: int, sep: char) -> bool {
    forall|i: int|
        0 <= i < s.len() ==> if i % period == period - 1 {
            #[trigger] s[i] == sep
        } else {
            is_hex_char(s[i])
        }
}

/// Twelve contiguous hexadecimal digits.
pub open spec fn is_plain_notation(s: Seq<char>) -> bool {
    s.len() == 12 && forall|i: int| 0 <= i < 12 ==> is_hex_char(#[trigger] s[i])
}

/// Six groups of two digits, joined by `sep`.
pub open spec fn is_octet_notation(s: Seq<char>, sep: char) -> bool {
    s.len() == 17 && fits_grouping(s, 3, sep)
}

/// Three groups of four digits, joined by `.`.
pub open spec fn is_dot_notation(s: Seq<char>) -> bool {
    s.len() == 14 && fits_grouping(s, 5, '.')
}

/// `s` is written in one of the accepted notations: plain, hyphen, colon or dot.
pub open spec fn is_valid_notation(s: Seq<char>) -> bool {
    ||| is_plain_notation(s)
    ||| is_octet_notation(s, '-')
    ||| is_octet_notation(s, ':')
    ||| is_dot_notation(s)
}

proof fn lemma_fits_grouping_last(s: Seq<char>, period: int, sep: char)
    requires
        s.len() > 0,
    ensures
        fits_grouping(s, period, sep) == (fits_grouping(s.drop_last(), period, sep) && if (
        s.len() - 1) % period == period - 1 {
            s.last() == sep
        } else {
            is_hex_char(s.last())
        }),
{
    let t = s.drop_last();
    if fits_grouping(t, period, sep) && (if (s.len() - 1) % period == period - 1 {
        s.last() == sep
    } else {
        is_hex_char(s.last())
    }) {
        assert forall|i: int| 0 <= i < s.len() implies if i % period == period - 1 {
            #[trigger] s[i] == sep
        } else {
            is_hex_char(s[i])
        } by {
            if i < t.len() {
                assert(t[i] == s[i]);
            }
        }
    }
    if fits_grouping(s, period, sep) {
        assert forall|i: int| 0 <= i < t.len() implies if i % period == period - 1 {
            #[trigger] t[i] == sep
        } else {
            is_hex_char(t[i])
        } by {
            assert(t[i] == s[i]);
        }
        assert(s[s.len() - 1] == s.last());
    }
}

/// The index, in a notation whose every `period`-th character is a
/// separator, of the `k`-th hexadecimal digit.
pub open spec fn digit_position(k: int, period: int) -> int {
    k / (period - 1) * period + k % (period - 1)
}

proof fn lemma_clean_grouped_prefix(s: Seq<char>, period: int, sep: char, n: int)
    requires
        period == 3 || period == 5 || period == 13,
        fits_grouping(s, period, sep),
        !is_hex_char(sep),
        0 <= n <= s.len(),
    ensures
        clean_chars(s.take(n)) =~= Seq::new(
            (n - n / period) as nat,
            |k: int| lower_hex(s[digit_position(k, period)]),
        ),
    decreases n,
{
    if n > 0 {
        lemma_clean_grouped_prefix(s, period, sep, n - 1);
        let t = s.take(n);
        assert(t.drop_last() =~= s.take(n - 1));
        assert(t.last() == s[n - 1]);
        let k = n - 1 - (n - 1) / period;
        if period == 3 {
            assert(digit_position(k, 3) == n - 1 || (n - 1) % 3 == 2);
        } else if period == 5 {
            assert(digit_position(k, 5) == n - 1 || (n - 1) % 5 == 4);
        } else {
            assert(digit_position(k, 13) == n - 1 || (n - 1) % 13 == 12);
        }
    }
}

/// Stripping the separators of a valid notation leaves twelve lowercase
/// hexadecimal digits.
pub proof fn lemma_clean_valid(s: Seq<char>)
    requires
        is_valid_notation(s),
    ensures
        clean_chars(s).len() == 12,
        forall|i: int| 0 <= i < 12 ==> is_lower_hex_char(#[trigger] clean_chars(s)[i]),
{
    let (period, sep) = if is_plain_notation(s) {
        (13int, '-')
    } else if is_octet_notation(s, '-') {
        (3int, '-')
    } else if is_octet_notation(s, ':') {
        (3int, ':')
    } else {
        (5int, '.')
    };
    lemma_clean_grouped_prefix(s, period, sep, s.len() as int);
    assert(s.take(s.len() as int) =~= s);
    assert forall|i: int| 0 <= i < 12 implies is_lower_hex_char(#[trigger] clean_chars(s)[i]) by {
        let j = digit_position(i, period);
        if period == 3 {
            assert(j % 3 != 2 && 0 <= j < 17);
        } else if period == 5 {
            assert(j % 5 != 4 && 0 <= j < 14);
        } else {
            assert(j == i);
        }
        assert(is_hex_char(s[j]));
    }
}

/// The digits `d` written in groups of `period - 1`, with `sep` between
/// the groups.
pub open spec fn grouped(d: Seq<char>, period: int, sep: char) -> Seq<char> {
    Seq::new(
        (d.len() + d.len() as int / (period - 1) - 1) as nat,
        |i: int|
            if i % period == period - 1 {
                sep
            } else {
                d[i / period * (period - 1) + i % period]
            },
    )
}

proof fn lemma_clean_grouped(d: Seq<char>, period: int, sep: char)
    requires
        period == 3 || period == 5 || period == 13,
        d.len() == 12,
        forall|i: int| 0 <= i < 12 ==> is_hex_char(#[trigger] d[i]),
        !is_hex_char(sep),
    ensures
        fits_grouping(grouped(d, period, sep), period, sep),
        clean_chars(grouped(d, period, sep)) =~= Seq::new(12, |k: int| lower_hex(d[k])),
        period == 3 ==> grouped(d, period, sep).len() == 17,
        period == 5 ==> grouped(d, period, sep).len() == 14,
        period == 13 ==> grouped(d, period, sep) =~= d,
{
    let g = grouped(d, period, sep);
    if period == 3 {
        assert(12int / (period - 1) == 6) by (nonlinear_arith)
            requires
                period == 3,
        ;
        assert(g.len() == 17);
    } else if period == 5 {
        assert(12int / (period - 1) == 3) by (nonlinear_arith)
            requires
                period == 5,
        ;
        assert(g.len() == 14);
    } else {
        assert(12int / (period - 1) == 1) by (nonlinear_arith)
            requires
                period == 13,
        ;
        assert(g.len() == 12);
        assert forall|i: int| 0 <= i < 12 implies g[i] == d[i] by {
            assert(i % 13 == i && i / 13 == 0);
        }
    }
    assert forall|i: int| 0 <= i < g.len() implies if i % period == period - 1 {
        #[trigger] g[i] == sep
    } else {
        is_hex_char(g[i])
    } by {
        if i % period != period - 1 {
            let j = i / period * (period - 1) + i % period;
            if period == 3 {
                assert(0 <= j < 12);
            } else if period == 5 {
                assert(0 <= j < 12);
            } else {
                assert(j == i);
            }
        }
    }
    lemma_clean_grouped_prefix(g, period, sep, g.len() as int);
    assert(g.take(g.len() as int) =~= g);
    assert forall|k: int| 0 <= k < 12 implies g[digit_position(k, period)] == d[k] by {
        let j = digit_position(k, period);
        if period == 3 {
            assert(j % 3 != 2 && 0 <= j < 17 && j / 3 * 2 + j % 3 == k);
        } else if period == 5 {
            assert(j % 5 != 4 && 0 <= j < 14 && j / 5 * 4 + j % 5 == k);
        } else {
            assert(j == k);
        }
    }
}

/// The same twelve digits written in plain, hyphen, colon or dot notation
/// are all accepted, and all normalise to the same address.
pub proof fn lemma_notations_agree(d: Seq<char>)
    requires
        d.len() == 12,
        forall|i: int| 0 <= i < 12 ==> is_hex_char(#[trigger] d[i]),
    ensures
        is_valid_notation(d),
        is_valid_notation(grouped(d, 3, '-')),
        is_valid_notation(grouped(d, 3, ':')),
        is_valid_notation(grouped(d, 5, '.')),
        clean_chars(grouped(d, 3, '-')) == clean_chars(d),
        clean_chars(grouped(d, 3, ':')) == clean_chars(d),
        clean_chars(grouped(d, 5, '.')) == clean_chars(d),
{
    lemma_clean_grouped(d, 3, '-');
    lemma_clean_grouped(d, 3, ':');
    lemma_clean_grouped(d, 5, '.');
    lemma_clean_grouped(d, 13, '-');
}

/// `u` and `l` hold the same characters up to the case of hexadecimal letters.
pub open spec fn same_up_to_case(u: Seq<char>, l: Seq<char>) -> bool {
    u.len() == l.len() && forall|i: int| 0 <= i < u.len() ==> lower_hex(#[trigger] u[i]) == lower_hex(l[i])
}

proof fn lemma_char_same_up_to_case(a: char, b: char)
    requires
        lower_hex(a) == lower_hex(b),
    ensures
        is_hex_char(a) == is_hex_char(b),
        !is_hex_char(a) ==> a == b,
{
}

proof fn lemma_fits_grouping_same_up_to_case(u: Seq<char>, l: Seq<char>, period: int, sep: char)
    requires
        same_up_to_case(u, l),
        !is_hex_char(sep),
    ensures
        fits_grouping(u, period, sep) == fits_grouping(l, period, sep),
{
    assert forall|i: int| 0 <= i < u.len() implies is_hex_char(u[i]) == is_hex_char(l[i]) && (
    u[i] == sep) == (l[i] == sep) by {
        lemma_char_same_up_to_case(u[i], l[i]);
    }
}

proof fn lemma_clean_same_up_to_case(u: Seq<char>, l: Seq<char>)
    requires
        same_up_to_case(u, l),
    ensures
        clean_chars(u) == clean_chars(l),
    decreases u.len(),
{
    if u.len() > 0 {
        let n = u.len() - 1;
        assert(u.last() == u[n] && l.last() == l[n]);
        lemma_char_same_up_to_case(u[n], l[n]);
        assert forall|i: int| 0 <= i < n implies lower_hex(#[trigger] u.drop_last()[i]) == lower_hex(
            l.drop_last()[i],
        ) by {
            assert(u.drop_last()[i] == u[i] && l.drop_last()[i] == l[i]);
        }
        lemma_clean_same_up_to_case(u.drop_last(), l.drop_last());
    }
}

/// Text that differs only in the case of its hexadecimal letters is accepted
/// or refused alike, and normalises to the same address.
pub proof fn lemma_case_insensitive(u: Seq<char>, l: Seq<char>)
    requires
        same_up_to_case(u, l),
    ensures
        is_valid_notation(u) == is_valid_notation(l),
        clean_chars(u) == clean_chars(l),
{
    lemma_fits_grouping_same_up_to_case(u, l, 3, '-');
    lemma_fits_grouping_same_up_to_case(u, l, 3, ':');
    lemma_fits_grouping_same_up_to_case(u, l, 5, '.');
    lemma_fits_grouping_same_up_to_case(u, l, 13, '-');
    assert(is_plain_notation(u) == (u.len() == 12 && fits_grouping(u, 13, '-')));
    assert(is_plain_notation(l) == (l.len() == 12 && fits_grouping(l, 13, '-')));
    lemma_clean_same_up_to_case(u, l);
}

/// Relies on `String::push`: appends one character.
#[verifier::external_body]
pub(crate) fn push_char(s: &mut String, c: char)
    ensures
        final(s)@ == old(s)@.push(c),
{
    s.push(c)
}

fn char_is_hex(c: char) -> (r: bool)
    ensures
        r == is_hex_char(c),
{
    ('0' <= c && c <= '9') || ('a' <= c && c <= 'f') || ('A' <= c && c <= 'F')
}

fn char_to_lower_hex(c: char) -> (r: char)
    ensures
        r == lower_hex(c),
{
    if 'A' <= c && c <= 'F' {
        ((c as u8) + 32) as char
    } else {
        c
    }
}

/// "Cleans" an address: uppercase hexadecimal letters become lowercase and
/// every character that is not a hexadecimal digit (hyphens, colons, dots)
/// is removed.
pub fn clean(digits: &str) -> (r: String)
    ensures
        r@ == clean_chars(digits@),
{
    let mut out = String::new();
    for c in it: digits.chars()
        invariant
            it.seq() == digits@,
            out@ == clean_chars(digits@.take(it.index() as int)),
    {
        proof {
            let i = it.index() as int;
            assert(digits@.take(i + 1).drop_last() =~= digits@.take(i));
        }
        if char_is_hex(c) {
            push_char(&mut out, char_to_lower_hex(c));
        }
    }
    proof {
        assert(digits@.take(digits@.len() as int) =~= digits@);
    }
    out
}

/// Whether `digits` is written in one of the accepted notations.
pub fn is_valid(digits: &str) -> (r: bool)
    ensures
        r == is_valid_notation(digits@),
{
    let mut plain = true;
    let mut hyphen = true;
    let mut colon = true;
    let mut dot = true;
    let mut n: usize = 0;
    for c in it: digits.chars()
        invariant
            it.seq() == digits@,
            n == it.index(),
            n <= 17,
            plain == (forall|i: int| 0 <= i < n ==> #[trigger] is_hex_char(digits@[i])),
            hyphen == fits_grouping(digits@.take(n as int), 3, '-'),
            colon == fits_grouping(digits@.take(n as int), 3, ':'),
            dot == fits_grouping(digits@.take(n as int), 5, '.'),
    {
        if n == 17 {
            return false;
        }
        let hex = char_is_hex(c);
        let octet_sep = n % 3 == 2;
        plain = plain && hex;
        hyphen = hyphen && (if octet_sep { c == '-' } else { hex });
        colon = colon && (if octet_sep { c == ':' } else { hex });
        dot = dot && (if n % 5 == 4 { c == '.' } else { hex });
        n = n + 1;
        proof {
            let t = digits@.take(n as int);
            assert(t.drop_last() =~= digits@.take(n - 1));
            lemma_fits_grouping_last(t, 3, '-');
            lemma_fits_grouping_last(t, 3, ':');
            lemma_fits_grouping_last(t, 5, '.');
        }
    }
    proof {
        assert(digits@.take(n as int) =~= digits@);
    }
    (n == 12 && plain) || (n == 17 && (hyphen || colon)) || (n == 14 && dot)
}

} // verus!
