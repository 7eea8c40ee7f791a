//! The entry naming scheme: a fixed-width, zero-padded decimal counter
//! followed by a file extension.
//!
//! The width is chosen so that every possible counter value fits, which makes
//! lexicographic order of the names equal to numeric order of the counters.
//! Any plain sort of the entry names therefore reconstructs insertion order.

use vstd::arithmetic::div_mod::{lemma_div_is_ordered, lemma_fundamental_div_mod};
use vstd::prelude::*;
use vstd::utf8::{encode_utf8, is_ascii_chars, is_ascii_chars_encode_utf8};

use crate::order::lex_le;

verus! {

/// Width of the zero-padded counter, in digits.
pub const NAME_WIDTH: usize = 20;

/// Strict lexicographic order.
pub open spec fn lex_lt(a: Seq<char>, b: Seq<char>) -> bool {
    lex_le(a, b) && a != b
}

/// Ten to the `e`-th power.
pub open spec fn pow10(e: nat) -> nat
    decreases e,
{
    if e == 0 {
        1
    } else {
        10 * pow10((e - 1) as nat)
    }
}

/// The character for one decimal digit.
pub open spec fn digit_char(d: int) -> char {
    (48 + d) as char
}

/// The decimal digits of `n`, zero-padded on the left to `width` characters,
/// most significant digit first.  Counters above `pow10(width) - 1` would be
/// truncated, so callers stay below that bound.
pub open spec fn pad_digits(n: nat, width: nat) -> Seq<char>
    decreases width,
{
    if width == 0 {
        Seq::empty()
    } else {
        pad_digits(n / 10, (width - 1) as nat).push(digit_char((n % 10) as int))
    }
}

/// The archive entry name for the `k`-th appended page, given its extension
/// (extension text includes the leading dot where one is wanted).
pub open spec fn entry_name_spec(k: nat, ext: Seq<char>) -> Seq<char> {
    pad_digits(k, NAME_WIDTH as nat) + ext
}

pub proof fn lemma_pad_digits_len(n: nat, width: nat)
    ensures
        pad_digits(n, width).len() == width,
    decreases width,
{
    if width > 0 {
        lemma_pad_digits_len(n / 10, (width - 1) as nat);
    }
}

/// Appending anything to two equal-length, lexicographically distinct
/// prefixes keeps the strict order decided by the prefixes.
proof fn lemma_lex_lt_append(x: Seq<char>, y: Seq<char>, s: Seq<char>, t: Seq<char>)
    requires
        x.len() == y.len(),
        lex_lt(x, y),
    ensures
        lex_lt(x + s, y + t),
    decreases x.len(),
{
    if x.len() == 0 {
        assert(x =~= y);
    } else if x[0] < y[0] {
        assert((x + s)[0] == x[0]);
        assert((y + t)[0] == y[0]);
        assert(lex_le(x + s, y + t));
        assert((x + s)[0] != (y + t)[0]);
        assert(x + s != y + t);
    } else {
        assert(x[0] == y[0]);
        assert(x.drop_first().len() == y.drop_first().len());
        if x.drop_first() == y.drop_first() {
            assert forall|k: int| 0 <= k < x.len() implies x[k] == y[k] by {
                if k > 0 {
                    assert(x[k] == x.drop_first()[k - 1]);
                    assert(y[k] == y.drop_first()[k - 1]);
                }
            }
            assert(x =~= y);
        }
        assert(lex_lt(x.drop_first(), y.drop_first()));
        lemma_lex_lt_append(x.drop_first(), y.drop_first(), s, t);
        assert((x + s).drop_first() =~= x.drop_first() + s);
        assert((y + t).drop_first() =~= y.drop_first() + t);
        assert((x + s)[0] == x[0]);
        assert((y + t)[0] == y[0]);
        assert(lex_le(x + s, y + t));
        assert((x + s).drop_first() != (y + t).drop_first());
        assert(x + s != y + t);
    }
}

/// Smaller counters give lexicographically smaller padded digit strings,
/// for all counters that fit the width.
proof fn lemma_pad_digits_ordered(n1: nat, n2: nat, width: nat)
    requires
        n1 < n2,
        n2 < pow10(width),
    ensures
        lex_lt(pad_digits(n1, width), pad_digits(n2, width)),
    decreases width,
{
    assert(width > 0);
    let q1 = n1 / 10;
    let q2 = n2 / 10;
    let r1 = n1 % 10;
    let r2 = n2 % 10;
    let p1 = pad_digits(q1, (width - 1) as nat);
    let p2 = pad_digits(q2, (width - 1) as nat);
    lemma_pad_digits_len(q1, (width - 1) as nat);
    lemma_pad_digits_len(q2, (width - 1) as nat);

    lemma_div_is_ordered(n1 as int, n2 as int, 10);
    assert(q1 <= q2);
    assert(n2 < 10 * pow10((width - 1) as nat));
    lemma_fundamental_div_mod(n2 as int, 10);
    assert(q2 < pow10((width - 1) as nat));

    if q1 < q2 {
        lemma_pad_digits_ordered(q1, q2, (width - 1) as nat);
        assert(p1.push(digit_char(r1 as int)) =~= p1 + seq![digit_char(r1 as int)]);
        assert(p2.push(digit_char(r2 as int)) =~= p2 + seq![digit_char(r2 as int)]);
        lemma_lex_lt_append(p1, p2, seq![digit_char(r1 as int)], seq![digit_char(r2 as int)]);
    } else {
        lemma_fundamental_div_mod(n1 as int, 10);
        assert(r1 < r2);
        assert(digit_char(r1 as int) < digit_char(r2 as int));
        lemma_lex_push_last(p1, digit_char(r1 as int), digit_char(r2 as int));
    }
}

/// Two strings equal but for a smaller final character are strictly ordered.
proof fn lemma_lex_push_last(p: Seq<char>, c: char, d: char)
    requires
        c < d,
    ensures
        lex_lt(p.push(c), p.push(d)),
    decreases p.len(),
{
    if p.len() == 0 {
        assert(p.push(c)[0] == c);
        assert(p.push(d)[0] == d);
        assert(lex_le(p.push(c), p.push(d)));
        assert(p.push(c)[0] != p.push(d)[0]);
        assert(p.push(c) != p.push(d));
    } else {
        lemma_lex_push_last(p.drop_first(), c, d);
        assert(p.push(c).drop_first() =~= p.drop_first().push(c));
        assert(p.push(d).drop_first() =~= p.drop_first().push(d));
        assert(p.push(c)[0] == p[0]);
        assert(p.push(d)[0] == p[0]);
        assert(lex_le(p.push(c), p.push(d)));
        assert(p.push(c).drop_first() != p.push(d).drop_first());
        assert(p.push(c) != p.push(d));
    }
}

/// The naming invariant: for two append counters in range, the earlier
/// entry's name comes strictly first in lexicographic order, whatever the
/// two extensions are.  Sorting entry names therefore recovers insertion
/// order.
pub proof fn lemma_entry_names_ordered(i: nat, j: nat, e1: Seq<char>, e2: Seq<char>)
    requires
        i < j,
        j < pow10(NAME_WIDTH as nat),
    ensures
        lex_lt(entry_name_spec(i, e1), entry_name_spec(j, e2)),
{
    lemma_pad_digits_len(i, NAME_WIDTH as nat);
    lemma_pad_digits_len(j, NAME_WIDTH as nat);
    lemma_pad_digits_ordered(i, j, NAME_WIDTH as nat);
    lemma_lex_lt_append(
        pad_digits(i, NAME_WIDTH as nat),
        pad_digits(j, NAME_WIDTH as nat),
        e1,
        e2,
    );
}

/// How many bytes an entry name occupies when stored: names go into the
/// archive as UTF-8.
pub open spec fn entry_name_bytes(k: nat, ext: Seq<char>) -> nat {
    encode_utf8(entry_name_spec(k, ext)).len()
}

/// The padded counter consists of decimal digit characters.
proof fn lemma_pad_digits_ascii(n: nat, width: nat)
    ensures
        is_ascii_chars(pad_digits(n, width)),
    decreases width,
{
    if width > 0 {
        lemma_pad_digits_ascii(n / 10, (width - 1) as nat);
        let p = pad_digits(n, width);
        assert forall|i: int| 0 <= i < p.len() implies '\0' <= #[trigger] p[i] <= '\u{7f}' by {
            if i < p.len() - 1 {
                assert(p[i] == pad_digits(n / 10, (width - 1) as nat)[i]);
            } else {
                assert(p[i] == digit_char((n % 10) as int));
            }
        }
    }
}

/// A character's UTF-8 encoding takes one to four bytes, so a string's
/// byte length lies between its character count and four times it.
pub proof fn lemma_encode_utf8_len(s: Seq<char>)
    ensures
        s.len() <= encode_utf8(s).len() <= 4 * s.len(),
    decreases s.len(),
{
    if s.len() > 0 {
        lemma_encode_utf8_len(s.drop_first());
    }
}

/// A name whose extension is plain ASCII stores one byte per character.
pub proof fn lemma_entry_name_bytes_ascii(k: nat, ext: Seq<char>)
    requires
        is_ascii_chars(ext),
    ensures
        entry_name_bytes(k, ext) == NAME_WIDTH + ext.len(),
{
    broadcast use vstd::utf8::is_ascii_chars_concat;

    lemma_pad_digits_ascii(k, NAME_WIDTH as nat);
    lemma_pad_digits_len(k, NAME_WIDTH as nat);
    let name = entry_name_spec(k, ext);
    assert(name =~= pad_digits(k, NAME_WIDTH as nat) + ext);
    assert(is_ascii_chars(name));
    is_ascii_chars_encode_utf8(name);
}

/// Every `usize` counter fits inside the padded width.
pub proof fn lemma_usize_fits_name_width(k: usize)
    ensures
        (k as nat) < pow10(NAME_WIDTH as nat),
{
    reveal_with_fuel(pow10, 21);
    assert(pow10(NAME_WIDTH as nat) == 0x56bc75e2d63100000);
    assert((k as nat) <= usize::MAX as nat);
    assert((usize::MAX as nat) < 0x56bc75e2d63100000);
}

/// The single-character string for one decimal digit.
fn digit_str(d: u8) -> (r: &'static str)
    requires
        d < 10,
    ensures
        r@ =~= seq![digit_char(d as int)],
{
    proof {
        reveal_strlit("0");
        reveal_strlit("1");
        reveal_strlit("2");
        reveal_strlit("3");
        reveal_strlit("4");
        reveal_strlit("5");
        reveal_strlit("6");
        reveal_strlit("7");
        reveal_strlit("8");
        reveal_strlit("9");
    }
    match d {
        0 => "0",
        1 => "1",
        2 => "2",
        3 => "3",
        4 => "4",
        5 => "5",
        6 => "6",
        7 => "7",
        8 => "8",
        _ => "9",
    }
}

/// Append the zero-padded decimal digits of `n` to `out`.
fn push_padded(n: u64, width: usize, out: &mut String)
    ensures
        final(out)@ == old(out)@ + pad_digits(n as nat, width as nat),
    decreases width,
{
    if width == 0 {
        proof {
            assert(old(out)@ + pad_digits(n as nat, 0) =~= old(out)@);
        }
        return ;
    }

    push_padded(n / 10, width - 1, out);
    let d: u8 = (n % 10) as u8;
    out.append(digit_str(d));
    proof {
        assert(old(out)@ + pad_digits((n / 10) as nat, (width - 1) as nat) + seq![
            digit_char(d as int),
        ] =~= old(out)@ + pad_digits(n as nat, width as nat));
    }
}

/// The archive entry name for the `k`-th appended page.
pub fn entry_name(index: usize, ext: &str) -> (r: String)
    ensures
        r@ == entry_name_spec(index as nat, ext@),
{
    let mut name = String::new();
    push_padded(index as u64, NAME_WIDTH, &mut name);
    name.append(ext);
    proof {
        assert(name@ =~= entry_name_spec(index as nat, ext@));
    }
    name
}

} // verus!
