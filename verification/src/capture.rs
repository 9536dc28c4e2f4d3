//! Capture extraction: collecting the byte run that belongs to one capture
//! slot, bounded either by a delimiter byte or by ASCII whitespace.

use vstd::prelude::*;
use crate::stream::ByteStream;

verus! {

/// Whether a byte is ASCII whitespace: space, tab, carriage return, newline.
pub open spec fn is_ws(b: u8) -> bool {
    b == 32 || b == 9 || b == 13 || b == 10
}

/// The longest prefix of `inp` free of the delimiter `d`.
pub open spec fn take_until(inp: Seq<u8>, d: u8) -> Seq<u8>
    decreases inp.len(),
{
    if inp.len() == 0 || inp[0] == d {
        Seq::empty()
    } else {
        seq![inp[0]] + take_until(inp.drop_first(), d)
    }
}

/// `inp` without its longest prefix of ASCII whitespace.
pub open spec fn skip_ws(inp: Seq<u8>) -> Seq<u8>
    decreases inp.len(),
{
    if inp.len() > 0 && is_ws(inp[0]) {
        skip_ws(inp.drop_first())
    } else {
        inp
    }
}

/// The longest prefix of `inp` free of ASCII whitespace.
pub open spec fn take_non_ws(inp: Seq<u8>) -> Seq<u8>
    decreases inp.len(),
{
    if inp.len() == 0 || is_ws(inp[0]) {
        Seq::empty()
    } else {
        seq![inp[0]] + take_non_ws(inp.drop_first())
    }
}

/// The span a whitespace-bounded capture collects from `inp`: leading
/// whitespace is discarded, then bytes are collected up to the next
/// whitespace byte or the end of the input.
pub open spec fn ws_span(inp: Seq<u8>) -> Seq<u8> {
    take_non_ws(skip_ws(inp))
}

/// What remains of `inp` after a delimited capture: the delimiter-free
/// prefix is consumed, the delimiter itself is not.
pub open spec fn delim_rest(inp: Seq<u8>, d: u8) -> Seq<u8> {
    inp.skip(take_until(inp, d).len() as int)
}

/// What remains of `inp` after a whitespace-bounded capture: the leading
/// whitespace and the span are consumed, the boundary byte is not.
pub open spec fn ws_rest(inp: Seq<u8>) -> Seq<u8> {
    skip_ws(inp).skip(ws_span(inp).len() as int)
}

/// A delimited capture takes an exact delimiter-free prefix: the span is a
/// prefix of the input, the delimiter never occurs in it, and the byte after
/// the span — the next byte left in the stream — is the delimiter, whenever
/// the input holds the delimiter at all.
pub proof fn lemma_take_until_spec(inp: Seq<u8>, d: u8)
    ensures
        take_until(inp, d).len() <= inp.len(),
        take_until(inp, d) == inp.subrange(0, take_until(inp, d).len() as int),
        forall|i: int| 0 <= i < take_until(inp, d).len() ==> take_until(inp, d)[i] != d,
        take_until(inp, d).len() < inp.len() ==> inp[take_until(inp, d).len() as int] == d,
    decreases inp.len(),
{
    if inp.len() == 0 || inp[0] == d {
    } else {
        lemma_take_until_spec(inp.drop_first(), d);
        let t = take_until(inp, d);
        let tr = take_until(inp.drop_first(), d);
        assert(t == seq![inp[0]] + tr);
        assert(t =~= inp.subrange(0, t.len() as int));
        assert forall|i: int| 0 <= i < t.len() implies t[i] != d by {
            if i > 0 {
                assert(t[i] == tr[i - 1]);
            }
        }
    }
}

/// A whitespace-bounded capture discards exactly the leading whitespace run
/// and collects a whitespace-free span that ends at the first trailing
/// whitespace byte or at the end of the input; an all-whitespace input gives
/// an empty span.
pub proof fn lemma_ws_span_spec(inp: Seq<u8>)
    ensures
        skip_ws(inp).len() <= inp.len(),
        skip_ws(inp) == inp.skip(inp.len() - skip_ws(inp).len()),
        forall|i: int| 0 <= i < inp.len() - skip_ws(inp).len() ==> is_ws(inp[i]),
        skip_ws(inp).len() > 0 ==> !is_ws(skip_ws(inp)[0]),
        ws_span(inp).len() <= skip_ws(inp).len(),
        ws_span(inp) == skip_ws(inp).subrange(0, ws_span(inp).len() as int),
        forall|i: int| 0 <= i < ws_span(inp).len() ==> !is_ws(ws_span(inp)[i]),
        ws_span(inp).len() < skip_ws(inp).len() ==> is_ws(
            skip_ws(inp)[ws_span(inp).len() as int],
        ),
        (forall|i: int| 0 <= i < inp.len() ==> is_ws(inp[i])) ==> ws_span(inp).len() == 0,
{
    lemma_skip_ws_spec(inp);
    lemma_take_non_ws_spec(skip_ws(inp));
    if forall|i: int| 0 <= i < inp.len() ==> is_ws(inp[i]) {
        if skip_ws(inp).len() > 0 {
            let j = inp.len() - skip_ws(inp).len();
            assert(is_ws(inp[j as int]));
            assert(skip_ws(inp)[0] == inp[j as int]);
        }
    }
}

proof fn lemma_skip_ws_spec(inp: Seq<u8>)
    ensures
        skip_ws(inp).len() <= inp.len(),
        skip_ws(inp) == inp.skip(inp.len() - skip_ws(inp).len()),
        forall|i: int| 0 <= i < inp.len() - skip_ws(inp).len() ==> is_ws(inp[i]),
        skip_ws(inp).len() > 0 ==> !is_ws(skip_ws(inp)[0]),
    decreases inp.len(),
{
    if inp.len() > 0 && is_ws(inp[0]) {
        lemma_skip_ws_spec(inp.drop_first());
        assert(skip_ws(inp) =~= inp.skip(inp.len() - skip_ws(inp).len()));
        assert forall|i: int| 0 <= i < inp.len() - skip_ws(inp).len() implies is_ws(inp[i]) by {
            if i > 0 {
                assert(inp[i] == inp.drop_first()[i - 1]);
            }
        }
    } else {
        assert(skip_ws(inp) =~= inp.skip(0));
    }
}

proof fn lemma_take_non_ws_spec(inp: Seq<u8>)
    ensures
        take_non_ws(inp).len() <= inp.len(),
        take_non_ws(inp) == inp.subrange(0, take_non_ws(inp).len() as int),
        forall|i: int| 0 <= i < take_non_ws(inp).len() ==> !is_ws(take_non_ws(inp)[i]),
        take_non_ws(inp).len() < inp.len() ==> is_ws(inp[take_non_ws(inp).len() as int]),
    decreases inp.len(),
{
    if inp.len() == 0 || is_ws(inp[0]) {
    } else {
        lemma_take_non_ws_spec(inp.drop_first());
        let t = take_non_ws(inp);
        let tr = take_non_ws(inp.drop_first());
        assert(t =~= inp.subrange(0, t.len() as int));
        assert forall|i: int| 0 <= i < t.len() implies !is_ws(t[i]) by {
            if i > 0 {
                assert(t[i] == tr[i - 1]);
            }
        }
    }
}

/// Collects bytes up to, and not including, the delimiter `d`.  The
/// delimiter, if present, is left in the stream as the next byte.
pub fn capture_delimited(stream: &mut ByteStream, d: u8) -> (r: Vec<u8>)
    ensures
        r@ == take_until(old(stream).remaining(), d),
        final(stream).remaining() == delim_rest(old(stream).remaining(), d),
{
    let ghost inp = stream.remaining();
    let mut out: Vec<u8> = Vec::new();
    proof {
        lemma_take_until_spec(inp, d);
    }
    loop
        invariant
            inp == old(stream).remaining(),
            out@.len() <= inp.len(),
            out@ + take_until(stream.remaining(), d) == take_until(inp, d),
            stream.remaining() == inp.skip(out@.len() as int),
        decreases stream.remaining().len(),
    {
        let mut stop = true;
        let next = stream.peek();
        if let Some(b) = next {
            if b != d {
                stop = false;
                let ghost rem = stream.remaining();
                stream.next();
                out.push(b);
                proof {
                    assert(take_until(rem, d) == seq![b] + take_until(rem.drop_first(), d));
                    assert(out@ + take_until(stream.remaining(), d) =~= take_until(inp, d));
                    assert(stream.remaining() =~= inp.skip(out@.len() as int));
                }
            }
        }
        if stop {
            proof {
                assert(take_until(stream.remaining(), d) =~= Seq::<u8>::empty());
                assert(out@ =~= out@ + take_until(stream.remaining(), d));
            }
            return out;
        }
    }
}

/// Discards leading ASCII whitespace, then collects bytes up to the next
/// whitespace byte or the end of the stream; the boundary byte, if any, is
/// left in the stream.
pub fn capture_whitespace(stream: &mut ByteStream) -> (r: Vec<u8>)
    ensures
        r@ == ws_span(old(stream).remaining()),
        final(stream).remaining() == ws_rest(old(stream).remaining()),
{
    let ghost inp = stream.remaining();
    loop
        invariant
            inp == old(stream).remaining(),
            skip_ws(stream.remaining()) == skip_ws(inp),
        ensures
            stream.remaining() == skip_ws(inp),
        decreases stream.remaining().len(),
    {
        let mut advance = false;
        let next = stream.peek();
        if let Some(b) = next {
            if b == 32 || b == 9 || b == 13 || b == 10 {
                advance = true;
                stream.next();
            }
        }
        if !advance {
            proof {
                assert(skip_ws(stream.remaining()) == stream.remaining());
            }
            break;
        }
    }
    let ghost mid = stream.remaining();
    let mut out: Vec<u8> = Vec::new();
    loop
        invariant
            inp == old(stream).remaining(),
            mid == skip_ws(inp),
            out@.len() <= mid.len(),
            out@ + take_non_ws(stream.remaining()) == take_non_ws(mid),
            stream.remaining() == mid.skip(out@.len() as int),
        decreases stream.remaining().len(),
    {
        let mut stop = true;
        let next = stream.peek();
        if let Some(b) = next {
            if !(b == 32 || b == 9 || b == 13 || b == 10) {
                stop = false;
                let ghost rem = stream.remaining();
                stream.next();
                out.push(b);
                proof {
                    assert(take_non_ws(rem) == seq![b] + take_non_ws(rem.drop_first()));
                    assert(out@ + take_non_ws(stream.remaining()) =~= take_non_ws(mid));
                    assert(stream.remaining() =~= mid.skip(out@.len() as int));
                }
            }
        }
        if stop {
            proof {
                assert(take_non_ws(stream.remaining()) =~= Seq::<u8>::empty());
                assert(out@ =~= out@ + take_non_ws(stream.remaining()));
            }
            return out;
        }
    }
}

} // verus!
