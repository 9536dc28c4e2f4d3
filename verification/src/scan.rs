//! The executable scanner: the literal matcher, the capture pipeline and the
//! driver, each verified against the model in [`crate::model`].

use vstd::prelude::*;
use vstd::utf8::{valid_utf8, decode_utf8};
use crate::capture::{
    take_until,
    ws_span,
    delim_rest,
    ws_rest,
    capture_delimited,
    capture_whitespace,
};
use crate::convert::FromText;
use crate::decode::{utf8_prefix_len, utf8_valid_up_to, utf8_to_string, lemma_utf8_prefix_len_whole};
use crate::errors::Error;
use crate::model::{
    scan_core,
    match_lit,
    capture_delim_step,
    capture_ws_step,
    CoreScan,
    ScanError,
    prepend_span,
    prepend_all,
    failed,
    utf8_err,
};
use crate::stream::ByteStream;

verus! {

/// Consumes exactly one byte from the stream and matches it against
/// `expected`: it succeeds exactly when the stream's next byte equals the
/// expected byte, and otherwise reports the expected byte together with the
/// byte actually found at the point of divergence (`None` at end of stream).
pub fn match_next(expected: u8, stream: &mut ByteStream) -> (r: Result<(), Error>)
    ensures
        final(stream).remaining() == (if old(stream).remaining().len() > 0 {
            old(stream).remaining().drop_first()
        } else {
            old(stream).remaining()
        }),
        r is Ok <==> (old(stream).remaining().len() > 0 && old(stream).remaining()[0]
            == expected),
        r matches Err(e) ==> e == Error::UnexpectedValue(
            expected,
            if old(stream).remaining().len() > 0 {
                Some(old(stream).remaining()[0])
            } else {
                None
            },
        ),
{
    let next = stream.next();
    if let Some(b) = next {
        if b == expected {
            return Ok(());
        }
    }
    Err(Error::UnexpectedValue(expected, next))
}

/// The span one capture extracts from the input: the delimiter-free prefix
/// for a delimited capture, the whitespace-bounded span otherwise.
pub open spec fn capture_span(delim: Option<u8>, inp: Seq<u8>) -> Seq<u8> {
    match delim {
        Some(d) => take_until(inp, d),
        None => ws_span(inp),
    }
}

/// The input left unconsumed after one capture.
pub open spec fn capture_rest(delim: Option<u8>, inp: Seq<u8>) -> Seq<u8> {
    match delim {
        Some(d) => delim_rest(inp, d),
        None => ws_rest(inp),
    }
}

/// Extracts one capture from the stream, validates it as UTF-8 and converts
/// it to the target type.  With `Some(d)` the capture runs up to, and not
/// including, the delimiter `d`; with `None` it is whitespace-bounded.  The
/// result is `Ok` exactly when the span is valid UTF-8 and its text is
/// accepted by the target type; each failure carries the exact data the
/// error model prescribes, and the slot `name` is carried into `Parse` for
/// diagnostics only.
pub fn parse_capture<T: FromText>(
    name: &'static str,
    delim: Option<u8>,
    stream: &mut ByteStream,
) -> (r: Result<T, Error>)
    ensures
        ({
            let span = capture_span(delim, old(stream).remaining());
            &&& final(stream).remaining() == capture_rest(delim, old(stream).remaining())
            &&& (valid_utf8(span) && T::accepts(decode_utf8(span)) <==> r is Ok)
            &&& (r matches Ok(v) ==> T::value_of(decode_utf8(span), v))
            &&& (valid_utf8(span) && !T::accepts(decode_utf8(span)) ==> (r matches Err(e) && e
                matches Error::Parse(s, nm) && s@ == decode_utf8(span) && nm@ == name@))
            &&& (!valid_utf8(span) && utf8_prefix_len(span) == 0 ==> (r matches Err(e) && e
                matches Error::InvalidUtf8(b) && b@ == span))
            &&& (!valid_utf8(span) && utf8_prefix_len(span) > 0 ==> (r matches Err(e) && e
                matches Error::PartialUtf8(n, b) && n == utf8_prefix_len(span) && b@ == span))
        }),
{
    let raw = match delim {
        Some(d) => capture_delimited(stream, d),
        None => capture_whitespace(stream),
    };
    let n = utf8_valid_up_to(&raw);
    proof {
        lemma_utf8_prefix_len_whole(raw@);
    }
    if n == raw.len() {
        let s = utf8_to_string(raw);
        match T::from_text(s.as_str()) {
            Some(v) => Ok(v),
            None => Err(Error::Parse(s, name)),
        }
    } else if n == 0 {
        Err(Error::InvalidUtf8(raw))
    } else {
        Err(Error::PartialUtf8(n, raw))
    }
}

/// The position of the first extracted span whose text the target type
/// rejects, if any: the first conversion failure of a run.
pub open spec fn first_reject<T: FromText>(spans: Seq<Seq<u8>>) -> Option<int>
    decreases spans.len(),
{
    if spans.len() == 0 {
        None
    } else if !T::accepts(decode_utf8(spans[0])) {
        Some(0)
    } else {
        match first_reject::<T>(spans.drop_first()) {
            None => None,
            Some(i) => Some(i + 1),
        }
    }
}

/// Whether an error value carries exactly the data of a model failure.
pub open spec fn error_matches(ex: Error, e: ScanError) -> bool {
    match e {
        ScanError::MissingMatch => ex == Error::MissingMatch,
        ScanError::MissingClosingBrace => ex == Error::MissingClosingBrace,
        ScanError::UnexpectedValue(c, a) => ex == Error::UnexpectedValue(c, a),
        ScanError::InvalidUtf8(s) => ex matches Error::InvalidUtf8(b) && b@ == s,
        ScanError::PartialUtf8(n, s) => ex matches Error::PartialUtf8(m, b) && m == n && b@ == s,
    }
}

proof fn lemma_first_reject_none<T: FromText>(spans: Seq<Seq<u8>>)
    requires
        forall|i: int| 0 <= i < spans.len() ==> T::accepts(decode_utf8(#[trigger] spans[i])),
    ensures
        first_reject::<T>(spans) is None,
    decreases spans.len(),
{
    if spans.len() > 0 {
        assert(forall|i: int|
            0 <= i < spans.drop_first().len() ==> #[trigger] spans.drop_first()[i] == spans[i
                + 1]);
        lemma_first_reject_none::<T>(spans.drop_first());
    }
}

proof fn lemma_first_reject_at<T: FromText>(spans: Seq<Seq<u8>>, k: int)
    requires
        0 <= k < spans.len(),
        forall|i: int| 0 <= i < k ==> T::accepts(decode_utf8(#[trigger] spans[i])),
        !T::accepts(decode_utf8(spans[k])),
    ensures
        first_reject::<T>(spans) == Some(k),
    decreases spans.len(),
{
    if k > 0 {
        assert(forall|i: int|
            0 <= i < spans.drop_first().len() ==> #[trigger] spans.drop_first()[i] == spans[i
                + 1]);
        lemma_first_reject_at::<T>(spans.drop_first(), k - 1);
    }
}

/// The whole-run outcome the driver promises, given the model's run and the
/// requested slot names: the first conversion failure preempts everything the
/// model reports after its span was extracted; otherwise the model's own
/// failure is returned; otherwise one value per slot, each denoted by its
/// span's text.
pub open spec fn scan_result_matches<T: FromText>(
    r: Result<Vec<T>, Error>,
    core: CoreScan,
    names: Seq<&'static str>,
    stream_rest: Seq<u8>,
) -> bool {
    match first_reject::<T>(core.spans) {
        Some(k) => r matches Err(e) && e matches Error::Parse(s, nm) && s@ == decode_utf8(
            core.spans[k],
        ) && 0 <= k < names.len() && nm@ == names[k]@,
        None => match core.status {
            Some(e) => r matches Err(ex) && error_matches(ex, e),
            None => r matches Ok(vs) && vs@.len() == names.len() && (forall|i: int|
                0 <= i < vs@.len() ==> #[trigger] T::value_of(decode_utf8(core.spans[i]), vs@[i]))
                && stream_rest == core.rest,
        },
    }
}

proof fn lemma_outcome_err<T: FromText>(
    total: CoreScan,
    done: Seq<Seq<u8>>,
    tail: CoreScan,
    e: ScanError,
)
    requires
        total == prepend_all(done, tail),
        forall|i: int|
            0 <= i < done.len() ==> T::accepts(decode_utf8(#[trigger] done[i])),
        tail.spans == Seq::<Seq<u8>>::empty(),
        tail.status == Some(e),
    ensures
        first_reject::<T>(total.spans) is None,
        total.status == Some(e),
{
    assert(total.spans =~= done);
    lemma_first_reject_none::<T>(total.spans);
}

/// Runs the whole pattern against the stream, producing one converted value
/// per slot name, in left-to-right order, or the first failure encountered.
/// The result is exactly what the model prescribes for this pattern, input
/// and slot count.
#[verifier::rlimit(100)]
pub fn run_scan<T: FromText>(
    pattern: &Vec<u8>,
    stream: &mut ByteStream,
    names: &Vec<&'static str>,
) -> (r: Result<Vec<T>, Error>)
    ensures
        scan_result_matches::<T>(
            r,
            scan_core(pattern@, old(stream).remaining(), names@.len() as nat),
            names@,
            final(stream).remaining(),
        ),
{
    let ghost inp0 = stream.remaining();
    let ghost total = scan_core(pattern@, inp0, names@.len() as nat);
    let mut out: Vec<T> = Vec::new();
    let ghost mut done: Seq<Seq<u8>> = Seq::empty();
    let n = pattern.len();
    let mut pi: usize = 0;
    proof {
        assert(pattern@.skip(0int) =~= pattern@);
        assert(total =~~= prepend_all(done, scan_core(pattern@.skip(0int), inp0, names@.len() as nat)));
    }
    while pi < n
        invariant
            inp0 == old(stream).remaining(),
            total == scan_core(pattern@, inp0, names@.len() as nat),
            pi <= n,
            n == pattern@.len(),
            out@.len() == done.len(),
            done.len() <= names@.len(),
            forall|i: int|
                0 <= i < done.len() ==> T::accepts(decode_utf8(#[trigger] done[i]))
                    && T::value_of(decode_utf8(done[i]), out@[i]),
            total == prepend_all(
                done,
                scan_core(
                    pattern@.skip(pi as int),
                    stream.remaining(),
                    (names@.len() - done.len()) as nat,
                ),
            ),
        decreases n - pi,
    {
        let ghost rem = stream.remaining();
        let ghost k = (names@.len() - done.len()) as nat;
        let ghost p = pattern@.skip(pi as int);
        let ghost tail = scan_core(p, rem, k);
        proof {
            assert(p.len() == n - pi);
            assert(p[0] == pattern@[pi as int]);
        }
        let c = pattern[pi];
        if c != 123 {
            proof {
                assert(tail == match_lit(c, p.drop_first(), rem, k));
                assert(p.drop_first() =~= pattern@.skip(pi as int + 1));
            }
            match match_next(c, stream) {
                Ok(_) => {
                    pi = pi + 1;
                    proof {
                        assert(total =~~= prepend_all(
                            done,
                            scan_core(pattern@.skip(pi as int), stream.remaining(), k),
                        ));
                    }
                },
                Err(e) => {
                    proof {
                        lemma_outcome_err::<T>(
                            total,
                            done,
                            tail,
                            ScanError::UnexpectedValue(
                                c,
                                if rem.len() > 0 {
                                    Some(rem[0])
                                } else {
                                    None
                                },
                            ),
                        );
                    }
                    return Err(e);
                },
            }
        } else if pi + 1 == n {
            proof {
                assert(p.len() == 1);
                lemma_outcome_err::<T>(total, done, tail, ScanError::MissingClosingBrace);
            }
            return Err(Error::MissingClosingBrace);
        } else {
            let c2 = pattern[pi + 1];
            proof {
                assert(p[1] == c2);
            }
            if c2 == 123 {
                proof {
                    assert(tail == match_lit(123, p.skip(2), rem, k));
                    assert(p.skip(2) =~= pattern@.skip(pi as int + 2));
                }
                match match_next(123, stream) {
                    Ok(_) => {
                        pi = pi + 2;
                        proof {
                            assert(total =~~= prepend_all(
                                done,
                                scan_core(pattern@.skip(pi as int), stream.remaining(), k),
                            ));
                        }
                    },
                    Err(e) => {
                        proof {
                            lemma_outcome_err::<T>(
                                total,
                                done,
                                tail,
                                ScanError::UnexpectedValue(
                                    123,
                                    if rem.len() > 0 {
                                        Some(rem[0])
                                    } else {
                                        None
                                    },
                                ),
                            );
                        }
                        return Err(e);
                    },
                }
            } else {
                // a capture marker: find its delimiter and its width
                let mut delim: Option<u8> = None;
                let mut adv: usize = 2;
                let mut well_formed = true;
                if c2 == 125 {
                    if pi + 2 < n {
                        delim = Some(pattern[pi + 2]);
                        adv = 3;
                    }
                } else if pi + 2 < n {
                    let c3 = pattern[pi + 2];
                    if c3 == 125 {
                        delim = Some(c2);
                        adv = 3;
                    } else {
                        well_formed = false;
                    }
                } else {
                    well_formed = false;
                }
                if !well_formed {
                    proof {
                        assert(tail == failed(ScanError::MissingClosingBrace, rem));
                        lemma_outcome_err::<T>(total, done, tail, ScanError::MissingClosingBrace);
                    }
                    return Err(Error::MissingClosingBrace);
                }
                proof {
                    if delim is Some {
                        assert(tail == capture_delim_step(
                            delim.unwrap(),
                            pattern@.skip(pi as int + 3),
                            rem,
                            k,
                        )) by {
                            assert(p.skip(3) =~= pattern@.skip(pi as int + 3));
                        }
                    } else {
                        assert(p.len() == 2 && p[1] == 125);
                        assert(tail == capture_ws_step(rem, k));
                    }
                }
                if out.len() == names.len() {
                    proof {
                        assert(k == 0);
                        lemma_outcome_err::<T>(total, done, tail, ScanError::MissingMatch);
                    }
                    return Err(Error::MissingMatch);
                }
                let ghost span = capture_span(delim, rem);
                match parse_capture::<T>(names[out.len()], delim, stream) {
                    Err(e) => {
                        proof {
                            if valid_utf8(span) {
                                // a conversion failure: the first reject is here
                                let ghost inner: CoreScan = if delim is Some {
                                    match_lit(
                                        delim.unwrap(),
                                        pattern@.skip(pi as int + 3),
                                        delim_rest(rem, delim.unwrap()),
                                        (k - 1) as nat,
                                    )
                                } else {
                                    CoreScan {
                                        spans: Seq::empty(),
                                        status: if k == 1 {
                                            None
                                        } else {
                                            Some(ScanError::MissingMatch)
                                        },
                                        rest: ws_rest(rem),
                                    }
                                };
                                assert(tail == prepend_span(span, inner));
                                assert(total.spans =~= done.push(span) + inner.spans);
                                assert(total.spans[done.len() as int] == span);
                                lemma_first_reject_at::<T>(total.spans, done.len() as int);
                            } else {
                                lemma_outcome_err::<T>(total, done, tail, utf8_err(span));
                            }
                        }
                        return Err(e);
                    },
                    Ok(v) => {
                        out.push(v);
                        proof {
                            done = done.push(span);
                        }
                        let ghost k2 = (names@.len() - done.len()) as nat;
                        if let Some(d) = delim {
                            let ghost rest = delim_rest(rem, d);
                            let ghost inner = match_lit(
                                d,
                                pattern@.skip(pi as int + 3),
                                rest,
                                k2,
                            );
                            proof {
                                assert(tail == prepend_span(span, inner));
                                crate::capture::lemma_take_until_spec(rem, d);
                            }
                            match match_next(d, stream) {
                                Ok(_) => {
                                    pi = pi + 3;
                                    proof {
                                        assert(rest.len() > 0 && rest[0] == d);
                                        assert(inner == scan_core(
                                            pattern@.skip(pi as int),
                                            rest.drop_first(),
                                            k2,
                                        ));
                                        assert(total.spans =~= done + inner.spans);
                                        assert(total =~~= prepend_all(
                                            done,
                                            scan_core(
                                                pattern@.skip(pi as int),
                                                stream.remaining(),
                                                k2,
                                            ),
                                        ));
                                    }
                                },
                                Err(e) => {
                                    proof {
                                        assert(inner == failed(
                                            ScanError::UnexpectedValue(
                                                d,
                                                if rest.len() > 0 {
                                                    Some(rest[0])
                                                } else {
                                                    None
                                                },
                                            ),
                                            if rest.len() > 0 {
                                                rest.drop_first()
                                            } else {
                                                rest
                                            },
                                        ));
                                        assert(total.spans =~= done);
                                        lemma_first_reject_none::<T>(total.spans);
                                    }
                                    return Err(e);
                                },
                            }
                        } else {
                            pi = pi + 2;
                            proof {
                                assert(pi == n);
                                assert(pattern@.skip(pi as int) =~= Seq::<u8>::empty());
                                let ghost inner = scan_core(
                                    pattern@.skip(pi as int),
                                    stream.remaining(),
                                    k2,
                                );
                                assert(inner.spans =~= Seq::<Seq<u8>>::empty());
                                assert(tail =~~= prepend_span(span, inner));
                                assert(total =~~= prepend_all(done, inner));
                            }
                        }
                    },
                }
            }
        }
    }
    let ghost tail = scan_core(
        pattern@.skip(pi as int),
        stream.remaining(),
        (names@.len() - done.len()) as nat,
    );
    proof {
        assert(pattern@.skip(pi as int).len() == 0);
    }
    if out.len() < names.len() {
        proof {
            lemma_outcome_err::<T>(total, done, tail, ScanError::MissingMatch);
        }
        return Err(Error::MissingMatch);
    }
    proof {
        assert(total.spans =~= done);
        lemma_first_reject_none::<T>(total.spans);
        assert(total.status is None);
        assert(total.rest == stream.remaining());
    }
    Ok(out)
}

} // verus!
