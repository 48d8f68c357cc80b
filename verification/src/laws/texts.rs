//! Laws of texts: what numbers, sizes and times read as, and what becomes of
//! single characters.

use vstd::prelude::*;
use vstd::utf8::*;
use crate::generate::{duration_text, in_unit, nearest, size_text, spacing, with_53_bits};
use crate::text::{
    decimal_text,
    digit_char,
    hex_fixed,
    hex_text,
    is_hash_text,
    lower_byte,
    lowercase,
    replaced,
    same_ignoring_ascii_case,
    two_digits,
    upper_hex_digit,
    uppercase,
};

verus! {

broadcast use vstd::seq_lib::group_seq_properties;

// ---------------------------------------------------------------------------
// Numbers
// ---------------------------------------------------------------------------

/// The number that decimal digits stand for.
pub open spec fn number(s: Seq<char>) -> int
    decreases s.len(),
{
    if s.len() == 0 {
        0
    } else {
        10 * number(s.drop_last()) + (s.last() as int - 48)
    }
}

/// All characters are decimal digits.
pub open spec fn all_digits(s: Seq<char>) -> bool {
    forall|i: int| 0 <= i < s.len() ==> '0' <= #[trigger] s[i] <= '9'
}

/// A number in decimal reads as that number, in digits, and does not start with a
/// zero unless it is zero.
pub proof fn law_decimal(n: nat)
    ensures
        number(decimal_text(n)) == n,
        all_digits(decimal_text(n)),
        decimal_text(n).len() >= 1,
        n > 0 ==> decimal_text(n)[0] != '0',
        n == 0 ==> decimal_text(n) == seq!['0'],
    decreases n,
{
    let t = decimal_text(n);
    if n < 10 {
        assert(t.drop_last() =~= Seq::<char>::empty());
        assert(number(t.drop_last()) == 0);
        assert(t.last() == digit_char(n));
    } else {
        law_decimal(n / 10);
        let front = decimal_text(n / 10);
        assert(t.drop_last() =~= front);
        assert(t[0] == front[0]);
        assert(t.last() == digit_char(n % 10));
    }
}

/// With at least two digits a number reads as that number too; below a hundred it
/// has two digits, else it is as in decimal.
pub proof fn law_two_digits(n: nat)
    ensures
        number(two_digits(n)) == n,
        all_digits(two_digits(n)),
        n < 100 ==> two_digits(n).len() == 2,
        n >= 10 ==> two_digits(n) == decimal_text(n),
{
    law_decimal(n);
    if n < 10 {
        let t = two_digits(n);
        assert(t.drop_last() =~= seq!['0']);
        assert(t.drop_last().drop_last() =~= Seq::<char>::empty());
        assert(number(Seq::<char>::empty()) == 0);
        assert(number(seq!['0']) == 0);
        assert(t.last() == digit_char(n));
    } else if n < 100 {
        assert(decimal_text(n / 10).len() == 1);
    }
}

/// What a hexadecimal digit stands for.
pub open spec fn hex_value(c: char) -> int {
    if '0' <= c && c <= '9' {
        c as int - 48
    } else {
        c as int - 55
    }
}

/// The number that upper-case hexadecimal digits stand for.
pub open spec fn hex_number(s: Seq<char>) -> int
    decreases s.len(),
{
    if s.len() == 0 {
        0
    } else {
        16 * hex_number(s.drop_last()) + hex_value(s.last())
    }
}

proof fn lemma_hex_number(n: nat, width: nat)
    requires
        n < vstd::arithmetic::power::pow(16, width),
    ensures
        hex_number(hex_fixed(n, width)) == n,
        hex_fixed(n, width).len() == width,
    decreases width,
{
    reveal(vstd::arithmetic::power::pow);
    if width == 0 {
        assert(hex_fixed(n, width) =~= Seq::<char>::empty());
    } else {
        let w = (width - 1) as nat;
        assert(vstd::arithmetic::power::pow(16, width) == 16 * vstd::arithmetic::power::pow(16, w));
        lemma_hex_number(n / 16, w);
        let t = hex_fixed(n, width);
        assert(t.drop_last() =~= hex_fixed(n / 16, w));
        assert(t.last() == upper_hex_digit(n % 16));
        assert(hex_value(upper_hex_digit(n % 16)) == n % 16);
    }
}

/// A hash in text reads as its number: sixteen upper-case hexadecimal digits, the
/// most significant first.
pub proof fn law_hex_text(n: u64)
    ensures
        hex_number(hex_text(n)) == n,
        is_hash_text(hex_text(n)),
{
    assert(vstd::arithmetic::power::pow(16, 16) == 0x1_0000_0000_0000_0000) by {
        reveal_with_fuel(vstd::arithmetic::power::pow, 17);
    }
    lemma_hex_number(n as nat, 16);
    crate::text::law_hex_text_is_hash_text(n);
}

// ---------------------------------------------------------------------------
// Sizes
// ---------------------------------------------------------------------------

/// The nearest whole number to `n / d` is off by no more than a half, and is even
/// where it is off by exactly that.
pub proof fn law_nearest(n: nat, d: nat)
    requires
        d > 0,
    ensures
        2 * (nearest(n, d) * d - n) <= d,
        2 * (n - nearest(n, d) * d) <= d,
        2 * (nearest(n, d) * d - n) == d || 2 * (n - nearest(n, d) * d) == d ==> nearest(n, d) % 2
            == 0,
{
    let q = n / d;
    let r = n % d;
    assert(n == q * d + r && 0 <= r < d) by {
        vstd::arithmetic::div_mod::lemma_fundamental_div_mod(n as int, d as int);
        vstd::arithmetic::mul::lemma_mul_is_commutative(q as int, d as int);
        vstd::arithmetic::div_mod::lemma_mod_bound(n as int, d as int);
    }
    assert((q + 1) * d == q * d + d) by (nonlinear_arith);
}

/// How far apart the numbers with 53 binary digits are near `n`: as far as it takes
/// for `n` to be that many times some number of 53 binary digits.
pub proof fn law_spacing(n: nat)
    ensures
        spacing(n) >= 1,
        n < 0x20_0000_0000_0000 ==> spacing(n) == 1,
        n >= 0x20_0000_0000_0000 ==> 0x10_0000_0000_0000 * spacing(n) <= n < 0x20_0000_0000_0000
            * spacing(n),
    decreases n,
{
    if n >= 0x20_0000_0000_0000 {
        law_spacing(n / 2);
    }
}

/// A number is held with an error of at most half of how far apart such numbers
/// are, and exactly where it has no more than 53 binary digits.
pub proof fn law_with_53_bits(n: nat)
    ensures
        n <= 0x20_0000_0000_0000 ==> with_53_bits(n) == n,
        2 * (with_53_bits(n) - n) <= spacing(n),
        2 * (n - with_53_bits(n)) <= spacing(n),
        with_53_bits(n) % spacing(n) == 0,
{
    law_spacing(n);
    law_nearest(n, spacing(n));
    let s = spacing(n);
    if n >= 0x20_0000_0000_0000 {
        vstd::arithmetic::div_mod::lemma_mod_multiples_basic(nearest(n, s) as int, s as int);
        if n == 0x20_0000_0000_0000 {
            assert(spacing(n / 2) == 1);
            assert(s == 2);
        }
    } else {
        assert(n % 1 == 0);
    }
}

/// The text of a number of tenths in a unit.
pub open spec fn tenths_text(tenths: nat, unit: Seq<char>) -> Seq<char> {
    decimal_text(tenths / 10) + "."@ + decimal_text(tenths % 10) + unit
}

/// A size reads in bytes below a kilobyte, and else in the largest of kilobytes,
/// megabytes, gigabytes and terabytes of which it has at least one, in tenths:
/// the nearest number of them, and the even one in the middle.
pub proof fn law_sizes(n: nat) -> (tenths: nat)
    requires
        n <= 0x20_0000_0000_0000,
    ensures
        n < 1024 ==> size_text(n) == decimal_text(n) + " B"@,
        n >= 1024 ==> ({
            let (unit, name) = if n < 1024 * 1024 {
                (1024int, " KB"@)
            } else if n < 1024 * 1024 * 1024 {
                (1024 * 1024int, " MB"@)
            } else if n < 1024 * 1024 * 1024 * 1024 {
                (1024 * 1024 * 1024int, " GB"@)
            } else {
                (1024 * 1024 * 1024 * 1024int, " TB"@)
            };
            &&& size_text(n) == tenths_text(tenths, name)
            &&& 2 * (tenths * unit - 10 * n) <= unit
            &&& 2 * (10 * n - tenths * unit) <= unit
            &&& 2 * (tenths * unit - 10 * n) == unit || 2 * (10 * n - tenths * unit) == unit
                ==> tenths % 2 == 0
        }),
{
    law_with_53_bits(n);
    let unit: nat = if n < 0x10_0000 {
        0x400
    } else if n < 0x4000_0000 {
        0x10_0000
    } else if n < 0x100_0000_0000 {
        0x4000_0000
    } else {
        0x100_0000_0000
    };
    law_nearest(10 * n, unit);
    let tenths = nearest(10 * n, unit);
    assert(decimal_text(tenths % 10) =~= seq![digit_char(tenths % 10)]);
    tenths
}

/// A size that takes more than 53 binary digits reads as the number with so many
/// digits that is nearest to it.
pub proof fn law_large_sizes(n: nat)
    requires
        n >= 0x20_0000_0000_0000,
    ensures
        size_text(n) == in_unit(n, 0x100_0000_0000, " TB"@),
        in_unit(n, 0x100_0000_0000, " TB"@) == tenths_text(
            nearest(10 * with_53_bits(n), 0x100_0000_0000),
            " TB"@,
        ),
{
    let tenths = nearest(10 * with_53_bits(n), 0x100_0000_0000);
    assert(decimal_text(tenths % 10) =~= seq![digit_char(tenths % 10)]);
}

// ---------------------------------------------------------------------------
// Times
// ---------------------------------------------------------------------------

/// So many hours, minutes and seconds read as minutes and seconds with a colon
/// between them, after the hours and a colon where there are any.
pub proof fn law_durations(h: nat, m: nat, s: nat)
    requires
        m < 60,
        s < 60,
    ensures
        h == 0 ==> duration_text(60 * m + s) == two_digits(m) + ":"@ + two_digits(s),
        h > 0 ==> duration_text(3600 * h + 60 * m + s) == two_digits(h) + ":"@ + two_digits(m)
            + ":"@ + two_digits(s),
{
    let secs = 3600 * h + 60 * m + s;
    assert(secs / 3600 == h && secs % 3600 == 60 * m + s);
    assert((60 * m + s) / 60 == m && secs % 60 == s);
    assert(two_digits(h) + ":"@ + (two_digits(m) + ":"@ + two_digits(s)) =~= two_digits(h) + ":"@
        + two_digits(m) + ":"@ + two_digits(s));
}

// ---------------------------------------------------------------------------
// Characters
// ---------------------------------------------------------------------------

/// Replacing a character changes it wherever it stands, and nothing else.
pub proof fn law_replaced(s: Seq<char>, from: char, to: char)
    ensures
        replaced(s, from, to).len() == s.len(),
        forall|i: int|
            0 <= i < s.len() ==> #[trigger] replaced(s, from, to)[i] == (if s[i] == from {
                to
            } else {
                s[i]
            }),
        from != to ==> !replaced(s, from, to).contains(from),
        !s.contains(to) ==> replaced(replaced(s, from, to), to, from) == s,
{
    if !s.contains(to) {
        assert(replaced(replaced(s, from, to), to, from) =~= s) by {
            assert forall|i: int| 0 <= i < s.len() implies s[i] != to by {
                assert(s.contains(s[i]));
            }
        }
    }
}

/// In lower case, each of the letters from `A` to `Z` of an ASCII text is the
/// letter 32 places on, and all else is as it was; in upper case the other way
/// round.
pub proof fn law_ascii_case(s: Seq<char>, i: int)
    requires
        is_ascii_chars(s),
        0 <= i < s.len(),
    ensures
        lowercase(s).len() == s.len(),
        uppercase(s).len() == s.len(),
        'A' <= s[i] && s[i] <= 'Z' ==> lowercase(s)[i] as int == s[i] as int + 32,
        !('A' <= s[i] && s[i] <= 'Z') ==> lowercase(s)[i] == s[i],
        'a' <= s[i] && s[i] <= 'z' ==> uppercase(s)[i] as int == s[i] as int - 32,
        !('a' <= s[i] && s[i] <= 'z') ==> uppercase(s)[i] == s[i],
{
    assert('\0' <= s[i] <= '\u{7f}');
}

/// Two byte strings are the same but for the case of ASCII letters exactly if they
/// are as long as one another, and where their bytes differ it is by 32, from one
/// of `A` to `Z` to one of `a` to `z`.
pub proof fn law_same_ignoring_ascii_case(a: Seq<u8>, b: Seq<u8>)
    ensures
        same_ignoring_ascii_case(a, b) <==> a.len() == b.len() && forall|i: int|
            0 <= i < a.len() ==> {
                ||| #[trigger] a[i] == b[i]
                ||| 0x41 <= a[i] <= 0x5a && b[i] == a[i] + 32
                ||| 0x41 <= b[i] <= 0x5a && a[i] == b[i] + 32
            },
{
    if same_ignoring_ascii_case(a, b) {
        assert forall|i: int| 0 <= i < a.len() implies {
            ||| #[trigger] a[i] == b[i]
            ||| 0x41 <= a[i] <= 0x5a && b[i] == a[i] + 32
            ||| 0x41 <= b[i] <= 0x5a && a[i] == b[i] + 32
        } by {
            assert(lower_byte(a[i]) == lower_byte(b[i]));
        }
    }
}

} // verus!
