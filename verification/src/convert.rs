//! Text-to-value conversion: the capability a target type supplies so that a
//! captured span, once validated as text, can become a typed value.

use vstd::prelude::*;
use vstd::utf8::{encode_utf8, is_ascii_chars};

verus! {

/// A type that can be parsed from text.  `accepts` says exactly which texts
/// parse, and `value_of` says which value a text denotes; `from_text` is the
/// executable conversion, bound to both.
pub trait FromText: Sized {
    /// The texts this type parses successfully.
    spec fn accepts(s: Seq<char>) -> bool;

    /// Whether `v` is the value that the text `s` denotes.
    spec fn value_of(s: Seq<char>, v: Self) -> bool;

    /// Parses `s`, returning `None` exactly when `s` is not accepted.
    fn from_text(s: &str) -> (r: Option<Self>)
        ensures
            r is Some <==> Self::accepts(s@),
            r matches Some(v) ==> Self::value_of(s@, v);
}

/// Whether a character is an ASCII decimal digit.
pub open spec fn is_digit(c: char) -> bool {
    '0' <= c && c <= '9'
}

/// The numeric value of a digit character.
pub open spec fn digit_val(c: char) -> int {
    c as int - 48
}

/// Whether every character of `s` is a decimal digit.
pub open spec fn all_digits(s: Seq<char>) -> bool {
    forall|i: int| 0 <= i < s.len() ==> is_digit(#[trigger] s[i])
}

/// The numeric value of a digit string, most significant digit first.
pub open spec fn dec_val(s: Seq<char>) -> int
    decreases s.len(),
{
    if s.len() == 0 {
        0
    } else {
        dec_val(s.drop_last()) * 10 + digit_val(s.last())
    }
}

/// The digit character for a value between 0 and 9.
pub open spec fn digit_char(d: int) -> char {
    if d == 0 {
        '0'
    } else if d == 1 {
        '1'
    } else if d == 2 {
        '2'
    } else if d == 3 {
        '3'
    } else if d == 4 {
        '4'
    } else if d == 5 {
        '5'
    } else if d == 6 {
        '6'
    } else if d == 7 {
        '7'
    } else if d == 8 {
        '8'
    } else {
        '9'
    }
}

/// The decimal rendering of a non-negative number, without leading zeros
/// (except for the number 0 itself).
pub open spec fn dec_chars(n: int) -> Seq<char>
    decreases n,
{
    if n < 0 {
        Seq::empty()
    } else if n < 10 {
        seq![digit_char(n)]
    } else {
        dec_chars(n / 10).push(digit_char(n % 10))
    }
}

/// A decimal rendering consists of digits, is never empty, and is ASCII.
pub proof fn lemma_dec_chars_digits(n: int)
    requires
        n >= 0,
    ensures
        dec_chars(n).len() > 0,
        all_digits(dec_chars(n)),
        is_ascii_chars(dec_chars(n)),
    decreases n,
{
    if n < 10 {
    } else {
        lemma_dec_chars_digits(n / 10);
        let s = dec_chars(n);
        let p = dec_chars(n / 10);
        assert forall|i: int| 0 <= i < s.len() implies is_digit(#[trigger] s[i]) by {
            if i < p.len() {
                assert(s[i] == p[i]);
            }
        }
    }
}

/// Law: parsing a decimal rendering yields the rendered number back.
pub proof fn lemma_dec_round_trip(n: int)
    requires
        n >= 0,
    ensures
        dec_val(dec_chars(n)) == n,
    decreases n,
{
    if n < 10 {
        let s = dec_chars(n);
        assert(s.drop_last() =~= Seq::<char>::empty());
        assert(dec_val(Seq::<char>::empty()) == 0);
        assert(s.last() == digit_char(n));
        assert(digit_val(digit_char(n)) == n);
    } else {
        lemma_dec_round_trip(n / 10);
        let s = dec_chars(n);
        let p = dec_chars(n / 10);
        let m = n % 10;
        assert(s == p.push(digit_char(m)));
        assert(s.drop_last() =~= p);
        assert(s.last() == digit_char(m));
        assert(0 <= m < 10);
        assert(digit_val(digit_char(m)) == m);
        assert(dec_val(s) == dec_val(p) * 10 + m);
        assert((n / 10) * 10 + m == n);
    }
}

/// Digit values never decrease a number: every extension of a digit string
/// by further digits denotes at least as large a value.
pub proof fn lemma_dec_val_nonneg(s: Seq<char>)
    requires
        all_digits(s),
    ensures
        dec_val(s) >= 0,
    decreases s.len(),
{
    if s.len() > 0 {
        assert(all_digits(s.drop_last())) by {
            assert(forall|i: int| 0 <= i < s.len() - 1 ==> s.drop_last()[i] == s[i]);
        }
        lemma_dec_val_nonneg(s.drop_last());
    }
}

/// A digit string denotes at least as much as any of its prefixes.
pub proof fn lemma_dec_val_prefix(s: Seq<char>, i: int)
    requires
        all_digits(s),
        0 <= i <= s.len(),
    ensures
        dec_val(s) >= dec_val(s.subrange(0, i)),
    decreases s.len() - i,
{
    if i < s.len() {
        lemma_dec_val_prefix(s, i + 1);
        let p = s.subrange(0, i);
        let q = s.subrange(0, i + 1);
        assert(q.drop_last() =~= p);
        assert(all_digits(p)) by {
            assert(forall|j: int| 0 <= j < p.len() ==> p[j] == s[j]);
        }
        lemma_dec_val_nonneg(p);
        assert(q.last() == s[i]);
        assert(is_digit(s[i]));
        assert(digit_val(q.last()) >= 0);
        assert(dec_val(q) == dec_val(p) * 10 + digit_val(q.last()));
        assert(dec_val(p) * 10 >= dec_val(p));
        assert(dec_val(s) >= dec_val(q));
    } else {
        assert(s.subrange(0, i) =~= s);
    }
}

/// Parses the digits of `s` from position `start` on: succeeds exactly when
/// something follows `start`, all of it is digits, and the value stays within
/// `limit`.
fn parse_digits(s: &str, start: usize, limit: u32) -> (r: Option<u32>)
    requires
        start <= s@.len(),
    ensures
        ({
            let t = s@.skip(start as int);
            &&& (r is Some <==> (t.len() > 0 && all_digits(t) && dec_val(t) <= limit))
            &&& (r matches Some(v) ==> v == dec_val(t))
        }),
{
    let ghost t = s@.skip(start as int);
    let len = s.unicode_len();
    if start == len {
        return None;
    }
    let mut acc: u32 = 0;
    let mut i: usize = start;
    while i < len
        invariant
            t == s@.skip(start as int),
            start < len,
            len == s@.len(),
            start <= i <= len,
            acc <= limit,
            all_digits(t.subrange(0, i - start)),
            acc == dec_val(t.subrange(0, i - start)),
            forall|j: int| 0 <= j < t.len() ==> t[j] == s@[start + j],
        decreases len - i,
    {
        let c = s.get_char(i);
        proof {
            assert(t[i - start] == s@[i as int]);
        }
        if c < '0' || c > '9' {
            proof {
                assert(!is_digit(t[i - start]));
            }
            return None;
        }
        let d = (c as u32) - 48;
        let wide: u64 = (acc as u64) * 10 + (d as u64);
        let ghost prev = t.subrange(0, i - start);
        proof {
            let q = t.subrange(0, i - start + 1);
            assert(q.drop_last() =~= prev);
            assert(q.last() == t[i - start]);
            assert(all_digits(q)) by {
                assert(forall|j: int| 0 <= j < q.len() ==> q[j] == t[j]);
            }
            assert(wide == dec_val(q));
        }
        if wide > limit as u64 {
            proof {
                let q = t.subrange(0, i - start + 1);
                if all_digits(t) {
                    lemma_dec_val_prefix(t, i - start + 1);
                    assert(dec_val(t) > limit);
                }
            }
            return None;
        }
        acc = wide as u32;
        i = i + 1;
    }
    proof {
        assert(t.subrange(0, len - start) =~= t);
    }
    Some(acc)
}

impl FromText for u32 {
    /// A non-empty all-digit text whose value fits.
    open spec fn accepts(s: Seq<char>) -> bool {
        s.len() > 0 && all_digits(s) && dec_val(s) <= u32::MAX
    }

    open spec fn value_of(s: Seq<char>, v: Self) -> bool {
        v == dec_val(s)
    }

    fn from_text(s: &str) -> (r: Option<u32>) {
        proof {
            assert(s@.skip(0int) =~= s@);
        }
        parse_digits(s, 0, u32::MAX)
    }
}

impl FromText for i32 {
    /// An optional minus sign, then a non-empty all-digit text whose signed
    /// value fits.
    open spec fn accepts(s: Seq<char>) -> bool {
        if s.len() > 0 && s[0] == '-' {
            let t = s.skip(1);
            t.len() > 0 && all_digits(t) && dec_val(t) <= 0x8000_0000
        } else {
            s.len() > 0 && all_digits(s) && dec_val(s) <= i32::MAX
        }
    }

    open spec fn value_of(s: Seq<char>, v: Self) -> bool {
        if s.len() > 0 && s[0] == '-' {
            v == -dec_val(s.skip(1))
        } else {
            v == dec_val(s)
        }
    }

    fn from_text(s: &str) -> (r: Option<i32>) {
        let len = s.unicode_len();
        if len > 0 && s.get_char(0) == '-' {
            match parse_digits(s, 1, 0x8000_0000) {
                Some(m) => Some(
                    if m == 0x8000_0000 {
                        i32::MIN
                    } else {
                        -(m as i32)
                    },
                ),
                None => None,
            }
        } else {
            proof {
                assert(s@.skip(0int) =~= s@);
            }
            match parse_digits(s, 0, 0x7fff_ffff) {
                Some(m) => Some(m as i32),
                None => None,
            }
        }
    }
}

impl FromText for String {
    /// Every text parses as itself.
    open spec fn accepts(s: Seq<char>) -> bool {
        true
    }

    open spec fn value_of(s: Seq<char>, v: Self) -> bool {
        v@ == s
    }

    fn from_text(s: &str) -> (r: Option<String>) {
        Some(s.to_owned())
    }
}

/// Renders a number in decimal, appending the digit bytes to `out`.
fn push_dec_digits(n: u64, out: &mut Vec<u8>)
    ensures
        final(out)@ == old(out)@ + dec_chars(n as int).map_values(|c: char| c as u8),
    decreases n,
{
    if n >= 10 {
        push_dec_digits(n / 10, out);
    }
    out.push((n % 10) as u8 + 48);
    proof {
        let cs = dec_chars(n as int);
        if n < 10 {
            assert(cs.map_values(|c: char| c as u8) =~= seq![((n as int % 10) + 48) as u8]);
        } else {
            let ps = dec_chars(n as int / 10);
            assert(cs == ps.push(digit_char(n as int % 10)));
            assert(cs.map_values(|c: char| c as u8) =~= ps.map_values(|c: char| c as u8).push(
                ((n as int % 10) + 48) as u8,
            ));
            assert(out@ =~= old(out)@ + cs.map_values(|c: char| c as u8));
        }
    }
}

/// The decimal rendering of a value, as text.
pub fn u64_to_string(v: u64) -> (r: String)
    ensures
        r@ == dec_chars(v as int),
{
    let mut buf: Vec<u8> = Vec::new();
    push_dec_digits(v, &mut buf);
    proof {
        let cs = dec_chars(v as int);
        lemma_dec_chars_digits(v as int);
        vstd::utf8::is_ascii_chars_encode_utf8(cs);
        assert(buf@ =~= encode_utf8(cs));
        vstd::utf8::encode_utf8_valid_utf8(cs);
        vstd::utf8::encode_utf8_decode_utf8(cs);
    }
    crate::decode::utf8_to_string(buf)
}

/// The decimal rendering of a value, as text.
pub fn u32_to_string(v: u32) -> (r: String)
    ensures
        r@ == dec_chars(v as int),
{
    u64_to_string(v as u64)
}

/// Law: scanning the decimal rendering of a value as a number yields the
/// value back — parsing is a left inverse of rendering.
pub proof fn lemma_u32_round_trip(v: u32)
    ensures
        <u32 as FromText>::accepts(dec_chars(v as int)),
        forall|w: u32| <u32 as FromText>::value_of(dec_chars(v as int), w) ==> w == v,
{
    lemma_dec_chars_digits(v as int);
    lemma_dec_round_trip(v as int);
}

} // verus!
