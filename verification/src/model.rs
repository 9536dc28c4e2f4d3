//! The mathematical model of a scan: a recursive specification of one
//! left-to-right pass of a pattern over an input, independent of the target
//! type.  The executable driver in [`crate::scan`] is verified against it.
//!
//! Pattern syntax, one byte of lookahead after an opening brace:
//! `{{` matches a literal `{`; `{}` at the very end of the pattern opens a
//! whitespace-bounded capture; `{}` followed by a byte `d`, and equally the
//! three-byte marker `{d}`, open a `d`-delimited capture whose delimiter must
//! then match as the next literal step; a lone `{` that fits none of these is
//! a malformed marker.

use vstd::prelude::*;
use vstd::utf8::{valid_utf8, encode_utf8, decode_utf8};
use crate::capture::{take_until, ws_span, delim_rest, ws_rest, is_ws, skip_ws};
use crate::capture::lemma_take_until_spec;
use crate::convert::{dec_chars, is_digit, lemma_dec_chars_digits, lemma_u32_round_trip, FromText};
use crate::decode::utf8_prefix_len;

verus! {

/// The type-independent failures of the model.  `Parse` failures depend on
/// the target type and are layered on top by the driver's contract.
pub enum ScanError {
    MissingMatch,
    MissingClosingBrace,
    UnexpectedValue(u8, Option<u8>),
    InvalidUtf8(Seq<u8>),
    PartialUtf8(nat, Seq<u8>),
}

/// The outcome of running a pattern over an input: the capture spans that
/// were extracted and validated (in order), the first type-independent
/// failure if any (`None` means the pattern was consumed completely and
/// every slot was filled), and the input bytes left unconsumed.
#[verifier::ext_equal]
pub struct CoreScan {
    pub spans: Seq<Seq<u8>>,
    pub status: Option<ScanError>,
    pub rest: Seq<u8>,
}

/// A run that stops at once with `e`, having extracted nothing.
pub open spec fn failed(e: ScanError, rest: Seq<u8>) -> CoreScan {
    CoreScan { spans: Seq::empty(), status: Some(e), rest }
}

/// The UTF-8 failure for an invalid span: `InvalidUtf8` when not even the
/// first byte is valid, `PartialUtf8` with the exact valid prefix otherwise.
pub open spec fn utf8_err(span: Seq<u8>) -> ScanError {
    if utf8_prefix_len(span) == 0 {
        ScanError::InvalidUtf8(span)
    } else {
        ScanError::PartialUtf8(utf8_prefix_len(span), span)
    }
}

/// Prefixes one extracted span onto the outcome of the rest of the run.
pub open spec fn prepend_span(span: Seq<u8>, c: CoreScan) -> CoreScan {
    CoreScan { spans: seq![span] + c.spans, status: c.status, rest: c.rest }
}

/// Prefixes all previously extracted spans onto the rest of the run.
pub open spec fn prepend_all(spans: Seq<Seq<u8>>, c: CoreScan) -> CoreScan {
    CoreScan { spans: spans + c.spans, status: c.status, rest: c.rest }
}

/// One literal-match step: the next input byte must equal `c` and is
/// consumed; on disagreement the run stops with the expected byte and the
/// byte actually found (or `None` at end of input).
pub open spec fn match_lit(c: u8, p: Seq<u8>, inp: Seq<u8>, slots: nat) -> CoreScan
    decreases p.len(), 1int,
{
    if inp.len() > 0 && inp[0] == c {
        scan_core(p, inp.drop_first(), slots)
    } else if inp.len() > 0 {
        failed(ScanError::UnexpectedValue(c, Some(inp[0])), inp.drop_first())
    } else {
        failed(ScanError::UnexpectedValue(c, None), inp)
    }
}

/// One delimited-capture step: the delimiter-free prefix of the input is the
/// span; it is validated as UTF-8, and the delimiter itself must then match
/// as the next literal step before the rest of the pattern continues.
pub open spec fn capture_delim_step(d: u8, p: Seq<u8>, inp: Seq<u8>, slots: nat) -> CoreScan
    decreases p.len(), 2int,
{
    if slots == 0 {
        failed(ScanError::MissingMatch, inp)
    } else {
        let span = take_until(inp, d);
        let rest = delim_rest(inp, d);
        if !valid_utf8(span) {
            failed(utf8_err(span), rest)
        } else {
            prepend_span(span, match_lit(d, p, rest, (slots - 1) as nat))
        }
    }
}

/// One whitespace-bounded capture step, which only occurs at the very end of
/// the pattern: leading whitespace is discarded, the whitespace-free span is
/// validated, and the run ends (a slot still unfilled is a `MissingMatch`).
pub open spec fn capture_ws_step(inp: Seq<u8>, slots: nat) -> CoreScan {
    if slots == 0 {
        failed(ScanError::MissingMatch, inp)
    } else {
        let span = ws_span(inp);
        let rest = ws_rest(inp);
        if !valid_utf8(span) {
            failed(utf8_err(span), rest)
        } else if slots == 1 {
            CoreScan { spans: seq![span], status: None, rest }
        } else {
            CoreScan { spans: seq![span], status: Some(ScanError::MissingMatch), rest }
        }
    }
}

/// One full run of pattern `p` over input `inp` with `slots` capture slots
/// still to fill.
pub open spec fn scan_core(p: Seq<u8>, inp: Seq<u8>, slots: nat) -> CoreScan
    decreases p.len(), 0int,
{
    if p.len() == 0 {
        CoreScan {
            spans: Seq::empty(),
            status: if slots == 0 {
                None
            } else {
                Some(ScanError::MissingMatch)
            },
            rest: inp,
        }
    } else if p[0] != 123 {
        match_lit(p[0], p.drop_first(), inp, slots)
    } else if p.len() == 1 {
        failed(ScanError::MissingClosingBrace, inp)
    } else if p[1] == 123 {
        match_lit(123, p.skip(2), inp, slots)
    } else if p[1] == 125 {
        if p.len() >= 3 {
            capture_delim_step(p[2], p.skip(3), inp, slots)
        } else {
            capture_ws_step(inp, slots)
        }
    } else if p.len() >= 3 && p[2] == 125 {
        capture_delim_step(p[1], p.skip(3), inp, slots)
    } else {
        failed(ScanError::MissingClosingBrace, inp)
    }
}

/// The number of capture markers in a pattern, or `None` if some marker is
/// truncated or malformed.
pub open spec fn pattern_markers(p: Seq<u8>) -> Option<nat>
    decreases p.len(),
{
    if p.len() == 0 {
        Some(0)
    } else if p[0] != 123 {
        pattern_markers(p.drop_first())
    } else if p.len() == 1 {
        None
    } else if p[1] == 123 {
        pattern_markers(p.skip(2))
    } else if p[1] == 125 {
        if p.len() >= 3 {
            match pattern_markers(p.skip(3)) {
                Some(k) => Some((k + 1) as nat),
                None => None,
            }
        } else {
            Some(1)
        }
    } else if p.len() >= 3 && p[2] == 125 {
        match pattern_markers(p.skip(3)) {
            Some(k) => Some((k + 1) as nat),
            None => None,
        }
    } else {
        None
    }
}

/// Whether a status is one of the two structural pattern errors.
pub open spec fn is_structural(st: Option<ScanError>) -> bool {
    st matches Some(ScanError::MissingMatch) || st matches Some(ScanError::MissingClosingBrace)
}

/// Law: the structural errors are produced exactly by structural
/// disagreement.  When the pattern is well formed and holds one marker per
/// requested slot, no input ever produces `MissingMatch` or
/// `MissingClosingBrace`; and when the marker count disagrees with the slot
/// count or a marker is truncated, no input ever scans successfully.
pub proof fn lemma_alignment(p: Seq<u8>, inp: Seq<u8>, n: nat)
    ensures
        pattern_markers(p) == Some(n) ==> !is_structural(scan_core(p, inp, n).status),
        pattern_markers(p) != Some(n) ==> scan_core(p, inp, n).status is Some,
    decreases p.len(), 0int,
{
    if p.len() == 0 {
    } else if p[0] != 123 {
        if inp.len() > 0 && inp[0] == p[0] {
            lemma_alignment(p.drop_first(), inp.drop_first(), n);
        }
    } else if p.len() == 1 {
    } else if p[1] == 123 {
        if inp.len() > 0 && inp[0] == 123 {
            lemma_alignment(p.skip(2), inp.drop_first(), n);
        }
    } else if p[1] == 125 && p.len() >= 3 {
        lemma_delim_alignment(p[2], p.skip(3), inp, n, pattern_markers(p));
    } else if p[1] == 125 {
        // whitespace capture at the end of the pattern
        assert(pattern_markers(p) == Some(1nat));
    } else if p.len() >= 3 && p[2] == 125 {
        lemma_delim_alignment(p[1], p.skip(3), inp, n, pattern_markers(p));
    } else {
    }
}

proof fn lemma_delim_alignment(d: u8, p: Seq<u8>, inp: Seq<u8>, n: nat, m: Option<nat>)
    requires
        m == (match pattern_markers(p) {
            Some(k) => Some((k + 1) as nat),
            None => None::<nat>,
        }),
    ensures
        m == Some(n) ==> !is_structural(capture_delim_step(d, p, inp, n).status),
        m != Some(n) ==> capture_delim_step(d, p, inp, n).status is Some,
    decreases p.len(), 1int,
{
    if n == 0 {
    } else {
        let span = take_until(inp, d);
        let rest = delim_rest(inp, d);
        if valid_utf8(span) {
            if rest.len() > 0 && rest[0] == d {
                lemma_alignment(p, rest.drop_first(), (n - 1) as nat);
            }
        }
    }
}

/// Whether a pattern consists of literal bytes only: every `{` doubled, no
/// capture markers.
pub open spec fn literal_only(p: Seq<u8>) -> bool
    decreases p.len(),
{
    if p.len() == 0 {
        true
    } else if p[0] != 123 {
        literal_only(p.drop_first())
    } else {
        p.len() >= 2 && p[1] == 123 && literal_only(p.skip(2))
    }
}

/// The text a literal-only pattern renders to when formatting: each `{{`
/// becomes one `{`, every other byte stands for itself.
pub open spec fn render_literals(p: Seq<u8>) -> Seq<u8>
    decreases p.len(),
{
    if p.len() == 0 {
        Seq::empty()
    } else if p[0] != 123 {
        seq![p[0]] + render_literals(p.drop_first())
    } else if p.len() >= 2 {
        seq![123u8] + render_literals(p.skip(2))
    } else {
        seq![123u8]
    }
}

proof fn lemma_non_ws_all(t: Seq<u8>)
    requires
        forall|i: int| 0 <= i < t.len() ==> !is_ws(#[trigger] t[i]),
    ensures
        skip_ws(t) == t,
        ws_span(t) == t,
        ws_rest(t) == Seq::<u8>::empty(),
    decreases t.len(),
{
    lemma_take_non_ws_all(t);
    assert(skip_ws(t) == t);
    assert(ws_rest(t) =~= Seq::<u8>::empty());
}

proof fn lemma_take_non_ws_all(t: Seq<u8>)
    requires
        forall|i: int| 0 <= i < t.len() ==> !is_ws(#[trigger] t[i]),
    ensures
        crate::capture::take_non_ws(t) == t,
    decreases t.len(),
{
    if t.len() > 0 {
        assert(forall|i: int|
            0 <= i < t.drop_first().len() ==> !is_ws(#[trigger] t.drop_first()[i]));
        lemma_take_non_ws_all(t.drop_first());
        assert(crate::capture::take_non_ws(t) =~= t);
    }
}

/// Law (round trip): formatting a value's text into a pattern with a single
/// undelimited capture and scanning the result with the same pattern yields
/// exactly that text as the one captured span, and the scan succeeds — for
/// any literal-only prefix and any valid text free of whitespace.
pub proof fn lemma_scan_round_trip(lit: Seq<u8>, text: Seq<u8>)
    requires
        literal_only(lit),
        forall|i: int| 0 <= i < text.len() ==> !is_ws(#[trigger] text[i]),
        valid_utf8(text),
    ensures
        scan_core(lit + seq![123u8, 125u8], render_literals(lit) + text, 1) == (CoreScan {
            spans: seq![text],
            status: None::<ScanError>,
            rest: Seq::<u8>::empty(),
        }),
    decreases lit.len(),
{
    let p = lit + seq![123u8, 125u8];
    let inp = render_literals(lit) + text;
    if lit.len() == 0 {
        assert(p.len() == 2 && p[0] == 123 && p[1] == 125);
        assert(inp =~= text);
        lemma_non_ws_all(text);
        assert(capture_ws_step(text, 1) =~~= (CoreScan {
            spans: seq![text],
            status: None::<ScanError>,
            rest: Seq::<u8>::empty(),
        }));
        assert(scan_core(p, inp, 1) == capture_ws_step(inp, 1));
    } else if lit[0] != 123 {
        assert(p[0] == lit[0]);
        assert(inp[0] == lit[0]);
        assert(inp.len() > 0);
        assert(p.drop_first() =~= lit.drop_first() + seq![123u8, 125u8]);
        assert(inp.drop_first() =~= render_literals(lit.drop_first()) + text);
        lemma_scan_round_trip(lit.drop_first(), text);
        assert(scan_core(p, inp, 1) == match_lit(p[0], p.drop_first(), inp, 1));
    } else {
        assert(lit.len() >= 2 && lit[1] == 123);
        assert(p[0] == 123 && p[1] == 123);
        assert(inp[0] == 123);
        assert(inp.len() > 0);
        assert(p.skip(2) =~= lit.skip(2) + seq![123u8, 125u8]);
        assert(inp.drop_first() =~= render_literals(lit.skip(2)) + text);
        lemma_scan_round_trip(lit.skip(2), text);
        assert(scan_core(p, inp, 1) == match_lit(123, p.skip(2), inp, 1));
    }
}

/// Law (round trip, end to end): rendering a number in decimal, formatting
/// that text into a pattern with a single undelimited capture, and scanning
/// the formatted text with the same pattern succeeds, captures exactly the
/// rendered digits, and hands the number type a text that it accepts and
/// that denotes the original number alone.
pub proof fn lemma_u32_format_scan_round_trip(lit: Seq<u8>, v: u32)
    requires
        literal_only(lit),
    ensures
        ({
            let text = encode_utf8(dec_chars(v as int));
            let core = scan_core(lit + seq![123u8, 125u8], render_literals(lit) + text, 1);
            &&& core.status is None
            &&& core.spans == seq![text]
            &&& decode_utf8(text) == dec_chars(v as int)
            &&& <u32 as FromText>::accepts(decode_utf8(text))
            &&& forall|w: u32| <u32 as FromText>::value_of(decode_utf8(text), w) ==> w == v
        }),
{
    let cs = dec_chars(v as int);
    let text = encode_utf8(cs);
    lemma_dec_chars_digits(v as int);
    vstd::utf8::is_ascii_chars_encode_utf8(cs);
    vstd::utf8::encode_utf8_valid_utf8(cs);
    vstd::utf8::encode_utf8_decode_utf8(cs);
    assert forall|i: int| 0 <= i < text.len() implies !is_ws(#[trigger] text[i]) by {
        assert(text[i] == cs[i] as u8);
        assert(is_digit(cs[i]));
    }
    lemma_scan_round_trip(lit, text);
    lemma_u32_round_trip(v);
}

/// Law: a delimited capture's span never includes the delimiter, and the
/// delimiter must match as the very next literal step: when the input still
/// holds it, it is consumed and the run continues; when the input ends
/// before it, the run fails with `UnexpectedValue(d, None)`.
pub proof fn lemma_delimiter_followup(d: u8, p: Seq<u8>, inp: Seq<u8>, slots: nat)
    requires
        slots >= 1,
    ensures
        forall|i: int| 0 <= i < take_until(inp, d).len() ==> take_until(inp, d)[i] != d,
        valid_utf8(take_until(inp, d)) && delim_rest(inp, d).len() > 0 ==> delim_rest(inp, d)[0]
            == d && capture_delim_step(d, p, inp, slots) == prepend_span(
            take_until(inp, d),
            scan_core(p, delim_rest(inp, d).drop_first(), (slots - 1) as nat),
        ),
        valid_utf8(take_until(inp, d)) && delim_rest(inp, d).len() == 0 ==> capture_delim_step(
            d,
            p,
            inp,
            slots,
        ) == prepend_span(
            take_until(inp, d),
            failed(ScanError::UnexpectedValue(d, None), delim_rest(inp, d)),
        ),
{
    lemma_take_until_spec(inp, d);
    let span = take_until(inp, d);
    let rest = delim_rest(inp, d);
    if rest.len() > 0 {
        assert(rest[0] == inp[span.len() as int]);
        assert(rest[0] == d);
    }
}

} // verus!
