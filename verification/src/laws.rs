//! General properties of the combinator algebra, stated and proved once
//! over the specifications that every parser's contract exposes.
//!
//! The outcome of any parser — whether it matches, how far it advances,
//! where it stops — is a pure function of the combinator tree and the
//! input: [`crate::parser::Parse::spec_parse`] says so by construction,
//! and every executable `parse` is verified against it. What remains to
//! be shown about determinism concerns the values: the lemmas here prove
//! that each matcher's value relation admits at most one value, and that
//! this property composes through sequencing, alternation, scanning and
//! repetition. The closure-carrying combinators — the value source and
//! the output transform — are the declared exceptions: nothing pins down
//! what an arbitrary closure returns.

use vstd::prelude::*;

use crate::parser::And;
use crate::parser::AnyChar;
use crate::parser::AnyDigit;
use crate::parser::Byte;
use crate::parser::Char;
use crate::parser::Many0;
use crate::parser::Many1;
use crate::parser::Or;
use crate::parser::Outcome;
use crate::parser::Parse;
use crate::parser::Skip;
use crate::parser::Slice;
use crate::parser::TakeUntil;
use crate::parser::Transform;
use crate::parser::spec_repeat_consumed;
use crate::parser::spec_repeat_values;
use crate::parser::spec_scan_offset;
use crate::cell::Cell;
use crate::simd::TakeUntilLiteral;
use crate::simd::chunk_hit;
use crate::simd::lemma_find_from_spec;
use crate::simd::matches_at;
use crate::simd::spec_chunked_find;

verus! {

/// The parser's value relation admits at most one value for any input:
/// together with the outcome being a function of tree and input, this is
/// determinism of the whole parse result.
pub open spec fn value_deterministic<'a, P: Parse<'a>>(p: P) -> bool {
    forall|input: Seq<u8>, v1: P::Output, v2: P::Output|
        #![trigger p.spec_value(input, v1), p.spec_value(input, v2)]
        p.spec_value(input, v1) && p.spec_value(input, v2) ==> v1 == v2
}

/// Two successful parses of the same input through the same deterministic
/// tree carry equal values.
pub proof fn lemma_parse_deterministic<'a, P: Parse<'a>>(
    p: P,
    input: Seq<u8>,
    v1: P::Output,
    v2: P::Output,
)
    requires
        value_deterministic(p),
        p.spec_value(input, v1),
        p.spec_value(input, v2),
    ensures
        v1 == v2,
{
}

/// The fixed-byte matcher is deterministic.
pub proof fn lemma_byte_deterministic(p: Byte)
    ensures
        value_deterministic(p),
{
}

/// The fixed-character matcher is deterministic.
pub proof fn lemma_char_deterministic(p: Char)
    ensures
        value_deterministic(p),
{
}

/// The alphabetic-byte matcher is deterministic.
pub proof fn lemma_any_char_deterministic(p: AnyChar)
    ensures
        value_deterministic(p),
{
}

/// The numeric-byte matcher is deterministic.
pub proof fn lemma_any_digit_deterministic(p: AnyDigit)
    ensures
        value_deterministic(p),
{
}

/// The literal matcher is deterministic.
pub proof fn lemma_slice_deterministic(p: Slice)
    ensures
        value_deterministic(p),
{
    assert forall|input: Seq<u8>, v1: &[u8], v2: &[u8]|
        p.spec_value(input, v1) && p.spec_value(input, v2) implies v1 == v2 by {
        assert(v1@ == v2@);
    }
}

/// Scan-until is deterministic whenever its delimiter's outcome is — and
/// that outcome always is, so no condition on the delimiter is needed.
pub proof fn lemma_take_until_deterministic<'a, P: Parse<'a>>(p: TakeUntil<P>)
    ensures
        value_deterministic(p),
{
    assert forall|input: Seq<u8>, v1: &[u8], v2: &[u8]|
        p.spec_value(input, v1) && p.spec_value(input, v2) implies v1 == v2 by {
        assert(v1@ == v2@);
    }
}

/// Sequencing preserves determinism.
pub proof fn lemma_and_deterministic<'a, P1, P2>(p: And<P1, P2>) where
    P1: Parse<'a>,
    P2: Parse<'a>,

    requires
        value_deterministic(p.parser1),
        value_deterministic(p.parser2),
    ensures
        value_deterministic(p),
{
}

/// Sequence-and-discard preserves determinism of the kept side.
pub proof fn lemma_skip_deterministic<'a, P1, P2>(p: Skip<P1, P2>) where
    P1: Parse<'a>,
    P2: Parse<'a>,

    requires
        value_deterministic(p.parser1),
    ensures
        value_deterministic(p),
{
}

/// Ordered alternation preserves determinism.
pub proof fn lemma_or_deterministic<'a, P1, P2>(p: Or<P1, P2>) where
    P1: Parse<'a>,
    P2: Parse<'a, Output = P1::Output>,

    requires
        value_deterministic(p.parser1),
        value_deterministic(p.parser2),
    ensures
        value_deterministic(p),
{
}

/// An output transform is deterministic when its sub-parser is and its
/// closure relates each input to at most one output. (For an arbitrary
/// closure nothing pins the output down: that is the transform's declared
/// exception to determinism.)
pub proof fn lemma_transform_deterministic<'a, P, F, B>(p: Transform<P, F, B>) where
    P: Parse<'a>,
    F: Fn(P::Output) -> B,

    requires
        value_deterministic(p.parser),
        forall|a: P::Output, b1: B, b2: B|
            #![trigger call_ensures(p.f, (a,), b1), call_ensures(p.f, (a,), b2)]
            call_ensures(p.f, (a,), b1) && call_ensures(p.f, (a,), b2) ==> b1 == b2,
    ensures
        value_deterministic(p),
{
    assert forall|input: Seq<u8>, v1: B, v2: B|
        p.spec_value(input, v1) && p.spec_value(input, v2) implies v1 == v2 by {
        let a1 = choose|a: P::Output|
            #[trigger] p.parser.spec_value(input, a) && call_ensures(p.f, (a,), v1);
        let a2 = choose|a: P::Output|
            #[trigger] p.parser.spec_value(input, a) && call_ensures(p.f, (a,), v2);
        assert(a1 == a2);
    }
}

/// The composition wrapper adds nothing: determinism passes through.
pub proof fn lemma_cell_deterministic<'a, P: Parse<'a>>(p: Cell<P>)
    requires
        value_deterministic(p.parser),
    ensures
        value_deterministic(p),
{
}

/// Repetition collects a uniquely determined sequence when the repeated
/// parser is deterministic.
pub proof fn lemma_repeat_values_deterministic<'a, P: Parse<'a>>(
    p: P,
    input: Seq<u8>,
    vs1: Seq<P::Output>,
    vs2: Seq<P::Output>,
)
    requires
        value_deterministic(p),
        spec_repeat_values(p, input, vs1),
        spec_repeat_values(p, input, vs2),
    ensures
        vs1 == vs2,
    decreases input.len(),
{
    match p.spec_parse(input) {
        Outcome::Rejected { .. } => {
            assert(vs1 =~= vs2);
        },
        Outcome::Matched { consumed } => {
            if 1 <= consumed <= input.len() {
                assert(p.spec_value(input, vs1[0]));
                assert(p.spec_value(input, vs2[0]));
                lemma_repeat_values_deterministic(
                    p,
                    input.skip(consumed),
                    vs1.skip(1),
                    vs2.skip(1),
                );
                assert forall|i: int| 0 <= i < vs1.len() implies vs1[i] == vs2[i] by {
                    if i >= 1 {
                        assert(vs1.skip(1)[i - 1] == vs1[i]);
                        assert(vs2.skip(1)[i - 1] == vs2[i]);
                    }
                }
                assert(vs1 =~= vs2);
            } else {
                assert(vs1 =~= vs2);
            }
        },
    }
}

/// Zero-or-more repetition of a deterministic parser yields one possible
/// sequence of values.
pub proof fn lemma_many0_deterministic<'a, P: Parse<'a>>(
    m: Many0<P>,
    input: Seq<u8>,
    v1: Vec<P::Output>,
    v2: Vec<P::Output>,
)
    requires
        value_deterministic(m.parser),
        m.spec_value(input, v1),
        m.spec_value(input, v2),
    ensures
        v1@ == v2@,
{
    lemma_repeat_values_deterministic(m.parser, input, v1@, v2@);
}

/// One-or-more repetition of a deterministic parser yields one possible
/// sequence of values.
pub proof fn lemma_many1_deterministic<'a, P: Parse<'a>>(
    m: Many1<P>,
    input: Seq<u8>,
    v1: Vec<P::Output>,
    v2: Vec<P::Output>,
)
    requires
        value_deterministic(m.parser),
        m.spec_value(input, v1),
        m.spec_value(input, v2),
    ensures
        v1@ == v2@,
{
    lemma_repeat_values_deterministic(m.parser, input, v1@, v2@);
}

/// Left-bias of alternation: when the earlier-declared alternative
/// matches, it alone determines outcome and value, whatever the later
/// alternative would have done.
pub proof fn lemma_or_left_bias<'a, P1, P2>(o: Or<P1, P2>, input: Seq<u8>) where
    P1: Parse<'a>,
    P2: Parse<'a, Output = P1::Output>,

    requires
        input.len() > 0,
        o.parser1.spec_parse(input) is Matched,
    ensures
        o.spec_parse(input) == o.parser1.spec_parse(input),
        forall|v: P1::Output| #[trigger]
            o.spec_value(input, v) <==> o.parser1.spec_value(input, v),
{
}

/// No partial consumption leaks from a failed left branch: on its
/// failure the right alternative is tried against the same original
/// input and alone determines the result.
pub proof fn lemma_or_right_on_failure<'a, P1, P2>(o: Or<P1, P2>, input: Seq<u8>) where
    P1: Parse<'a>,
    P2: Parse<'a, Output = P1::Output>,

    requires
        input.len() > 0,
        o.parser1.spec_parse(input) is Rejected,
    ensures
        o.spec_parse(input) == o.parser2.spec_parse(input),
        forall|v: P1::Output| #[trigger]
            o.spec_value(input, v) <==> o.parser2.spec_value(input, v),
{
}

/// One-or-more repetition fails outright when the very first application
/// of the repeated parser fails.
pub proof fn lemma_many1_zero_matches_fails<'a, P: Parse<'a>>(m: Many1<P>, input: Seq<u8>)
    requires
        m.parser.spec_parse(input) is Rejected,
    ensures
        m.spec_parse(input) == (Outcome::Rejected { at: 0 }),
{
}

/// One-or-more repetition never returns an empty sequence on success.
pub proof fn lemma_many1_collects_at_least_one<'a, P: Parse<'a>>(
    m: Many1<P>,
    input: Seq<u8>,
    v: Vec<P::Output>,
)
    requires
        m.wf(),
        m.spec_value(input, v),
    ensures
        v@.len() >= 1,
{
    m.parser.lemma_parse_bounded(input);
}

/// Zero-or-more repetition on zero matches succeeds with an empty
/// sequence and an unchanged cursor.
pub proof fn lemma_many0_zero_matches_empty<'a, P: Parse<'a>>(
    m: Many0<P>,
    input: Seq<u8>,
    v: Vec<P::Output>,
)
    requires
        input.len() > 0,
        m.parser.spec_parse(input) is Rejected,
    ensures
        m.spec_parse(input) == (Outcome::Matched { consumed: 0 }),
        m.spec_value(input, v) <==> v@ == Seq::<P::Output>::empty(),
{
    assert(spec_repeat_consumed(m.parser, input) == 0);
    if v@.len() == 0 {
        assert(v@ =~= Seq::<P::Output>::empty());
    }
}

/// A grammar-conformant input parses and is fully consumed, in the
/// simplest composite form: sequencing two literal matchers accepts the
/// concatenation of their patterns, consuming the whole buffer.
pub proof fn lemma_sequence_consumes_concatenation(p: And<Slice, Slice>)
    ensures
        p.spec_parse(p.parser1.bytes@ + p.parser2.bytes@) == (Outcome::Matched {
            consumed: p.parser1.bytes@.len() + p.parser2.bytes@.len() as int,
        }),
{
    let s = p.parser1.bytes@ + p.parser2.bytes@;
    lemma_slice_accepts_own_prefix(p.parser1, p.parser2.bytes@);
    assert(s.skip(p.parser1.bytes@.len() as int) =~= p.parser2.bytes@);
    lemma_slice_accepts_own_prefix(p.parser2, Seq::<u8>::empty());
    assert(p.parser2.bytes@ + Seq::<u8>::empty() =~= p.parser2.bytes@);
}

/// A scalar literal matcher succeeds on a suffix of the haystack exactly
/// where the pattern occurs in the whole haystack.
pub proof fn lemma_slice_matches_at(sl: Slice, hay: Seq<u8>, k: int)
    requires
        0 <= k <= hay.len(),
    ensures
        sl.spec_parse(hay.skip(k)) is Matched <==> matches_at(hay, sl.bytes@, k),
{
    let n = sl.bytes@.len() as int;
    if k + n <= hay.len() {
        assert(hay.skip(k).take(n) =~= hay.subrange(k, k + n));
    }
}

/// What the scalar scan offset means: it is the least offset at which
/// the delimiter matches, and a `None` means the delimiter matches at no
/// offset at all.
pub proof fn lemma_scan_offset_spec<'a, P: Parse<'a>>(p: P, input: Seq<u8>)
    ensures
        spec_scan_offset(p, input) matches Some(k) ==> 0 <= k <= input.len() && p.spec_parse(
            input.skip(k),
        ) is Matched && (forall|j: int|
            0 <= j < k ==> p.spec_parse(#[trigger] input.skip(j)) is Rejected),
        spec_scan_offset(p, input) is None ==> (forall|j: int|
            0 <= j <= input.len() ==> p.spec_parse(#[trigger] input.skip(j)) is Rejected),
    decreases input.len(),
{
    if p.spec_parse(input) is Matched {
        assert(input.skip(0) =~= input);
    } else if input.len() == 0 {
        assert forall|j: int| 0 <= j <= input.len() implies p.spec_parse(
            #[trigger] input.skip(j),
        ) is Rejected by {
            assert(input.skip(j) =~= input);
        }
    } else {
        lemma_scan_offset_spec(p, input.skip(1));
        assert forall|j: int| 1 <= j <= input.len() implies input.skip(1).skip(j - 1) == (
        #[trigger] input.skip(j)) by {
            assert(input.skip(1).skip(j - 1) =~= input.skip(j));
        }
        assert(input.skip(0) =~= input);
    }
}

/// Vectorized/scalar parity: whenever the first full occurrence of a
/// literal pattern does not straddle a 16-byte stride boundary, the
/// chunked scan reports exactly the offset that scalar scan-until finds;
/// and when the pattern never occurs in full, both fail. When the first
/// occurrence does straddle a boundary the two are allowed to diverge —
/// that is the chunked scan's documented gap.
pub proof fn lemma_chunked_scalar_parity(sl: Slice, hay: Seq<u8>)
    ensures
        spec_scan_offset(sl, hay) matches Some(k) ==> ((k % 16 + sl.bytes@.len() <= 16 && k
            < hay.len()) ==> spec_chunked_find(hay, sl.bytes@) == Some(k)),
        spec_scan_offset(sl, hay) is None ==> spec_chunked_find(hay, sl.bytes@) is None,
{
    let pat = sl.bytes@;
    lemma_scan_offset_spec(sl, hay);
    lemma_find_from_spec(hay, pat, 0);
    match spec_scan_offset(sl, hay) {
        Some(k) => {
            if k % 16 + pat.len() <= 16 && k < hay.len() {
                lemma_slice_matches_at(sl, hay, k);
                assert(chunk_hit(hay, pat, k));
                assert forall|j: int| 0 <= j < k implies !chunk_hit(hay, pat, j) by {
                    lemma_slice_matches_at(sl, hay, j);
                }
                match spec_chunked_find(hay, pat) {
                    Some(m) => {
                        assert(!(m < k));
                        assert(!(k < m));
                    },
                    None => {
                        assert(false);
                    },
                }
            }
        },
        None => {
            match spec_chunked_find(hay, pat) {
                Some(m) => {
                    lemma_slice_matches_at(sl, hay, m);
                    assert(false);
                },
                None => {
                },
            }
        },
    }
}

/// Parity of the two literal matchers: for a non-empty pattern of fewer
/// than 16 bytes the accelerated matcher and the scalar matcher have the
/// same outcome on every input and admit the same values.
pub proof fn lemma_slice_pair_parity(fast: crate::simd::Slice, scalar: Slice, input: Seq<u8>)
    requires
        fast.bytes@ == scalar.bytes@,
        0 < fast.bytes@.len() < 16,
    ensures
        fast.spec_parse(input) == scalar.spec_parse(input),
        forall|v: &[u8]|
            #![trigger fast.spec_value(input, v)]
            #![trigger scalar.spec_value(input, v)]
            fast.spec_value(input, v) <==> scalar.spec_value(input, v),
{
    let pat = scalar.bytes@;
    let n = pat.len() as int;
    if input.len() >= n {
        let window = input.take(n);
        lemma_find_from_spec(window, pat, 0);
        if window == pat {
            assert(window.subrange(0, n) =~= window);
            assert(chunk_hit(window, pat, 0));
            assert(spec_chunked_find(window, pat) == Some(0int));
        } else {
            match spec_chunked_find(window, pat) {
                Some(m) => {
                    assert(m + n <= window.len());
                    assert(m == 0);
                    assert(window.subrange(0, n) =~= window);
                    assert(false);
                },
                None => {
                },
            }
        }
    }
}

/// Parity of the two scan-until forms, in the terms of the documented
/// stride gap: when the scalar scan's offset does not straddle a stride
/// boundary, the accelerated scan agrees exactly, values included; and
/// when the scalar scan fails, so does the accelerated one.
pub proof fn lemma_take_until_pair_parity(
    fast: TakeUntilLiteral,
    scalar: TakeUntil<Slice>,
    input: Seq<u8>,
)
    requires
        fast.bytes@ == scalar.parser.bytes@,
    ensures
        scalar.spec_parse(input) matches Outcome::Matched { consumed } ==> ((consumed % 16
            + fast.bytes@.len() <= 16 && consumed < input.len()) ==> {
            &&& fast.spec_parse(input) == scalar.spec_parse(input)
            &&& forall|v: &[u8]|
                #![trigger fast.spec_value(input, v)]
                #![trigger scalar.spec_value(input, v)]
                fast.spec_value(input, v) <==> scalar.spec_value(input, v)
        }),
        scalar.spec_parse(input) is Rejected ==> fast.spec_parse(input) is Rejected,
{
    lemma_chunked_scalar_parity(scalar.parser, input);
}


/// A literal matcher accepts exactly the inputs that begin with its
/// pattern, consuming the pattern and nothing more — the building block
/// of "a grammar-conformant input parses".
pub proof fn lemma_slice_accepts_own_prefix(sl: Slice, rest: Seq<u8>)
    ensures
        sl.spec_parse(sl.bytes@ + rest) == (Outcome::Matched {
            consumed: sl.bytes@.len() as int,
        }),
{
    assert((sl.bytes@ + rest).take(sl.bytes@.len() as int) =~= sl.bytes@);
}

} // verus!
