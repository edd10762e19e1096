//! The parsing capability and the primitive and composite matchers.
//!
//! Every parser implements [`Parse`]: given a cursor (a suffix of the
//! original input buffer) it either succeeds, returning the advanced cursor
//! and a typed value, or fails, returning the residual slice at the point
//! where matching stopped. The specification side of the trait pins the
//! outcome down exactly: [`Parse::spec_parse`] gives the outcome on every
//! input, and [`Parse::spec_value`] says which values may accompany a
//! success.

use vstd::prelude::*;
use vstd::slice::slice_to_vec;

verus! {

/// The specification-level outcome of running a parser on a cursor.
///
/// `Matched { consumed }` means the parser succeeds and the new cursor is
/// the input with its first `consumed` bytes dropped. `Rejected { at }`
/// means the parser fails and the residual slice is the input with its
/// first `at` bytes dropped.
pub enum Outcome {
    Matched { consumed: int },
    Rejected { at: int },
}

/// The uniform contract every matcher and combinator implements.
///
/// The lifetime ties the cursor slices handed back by [`Parse::parse`] to
/// the input buffer, so that success-path outputs may borrow from it.
pub trait Parse<'a>: Sized {
    type Output;

    /// Conditions under which the parser's contract holds (for example,
    /// that a repeated sub-parser consumes at least one byte on success).
    open spec fn wf(&self) -> bool {
        true
    }

    /// The outcome on a given cursor: success with a consumed count, or
    /// failure with the offset of the residual slice.
    spec fn spec_parse(&self, input: Seq<u8>) -> Outcome;

    /// Which output values may accompany a successful parse of `input`.
    spec fn spec_value(&self, input: Seq<u8>, v: Self::Output) -> bool;

    /// The outcome never points outside the cursor: a successful step
    /// returns a cursor no longer than the one it was given, and a failure
    /// leaves a residual inside it.
    proof fn lemma_parse_bounded(&self, input: Seq<u8>)
        requires
            self.wf(),
        ensures
            self.spec_parse(input) matches Outcome::Matched { consumed } ==> 0 <= consumed
                <= input.len(),
            self.spec_parse(input) matches Outcome::Rejected { at } ==> 0 <= at <= input.len(),
    ;

    /// Run the parser on `input`. On success the returned cursor together
    /// with the value is exactly what [`Parse::spec_parse`] and
    /// [`Parse::spec_value`] describe; on failure the residual slice is
    /// the suffix that [`Parse::spec_parse`] names.
    fn parse(&self, input: &'a [u8]) -> (r: Result<(&'a [u8], Self::Output), &'a [u8]>)
        requires
            self.wf(),
        ensures
            r is Ok <==> self.spec_parse(input@) is Matched,
            r matches Ok((rest, v)) ==> {
                &&& self.spec_parse(input@) matches Outcome::Matched { consumed } && rest@
                    == input@.skip(consumed)
                &&& self.spec_value(input@, v)
            },
            r matches Err(residual) ==> (self.spec_parse(input@) matches Outcome::Rejected { at }
                && residual@ == input@.skip(at)),
    ;
}

/// Matches if the first input byte equals a fixed byte; consumes one byte
/// and yields a reference to it.
pub struct Byte {
    pub byte: u8,
}

impl Byte {
    pub fn new(byte: u8) -> (r: Self)
        ensures
            r.byte == byte,
    {
        Self { byte }
    }
}

impl<'a> Parse<'a> for Byte {
    type Output = &'a u8;

    open spec fn spec_parse(&self, input: Seq<u8>) -> Outcome {
        if input.len() > 0 && input[0] == self.byte {
            Outcome::Matched { consumed: 1 }
        } else {
            Outcome::Rejected { at: 0 }
        }
    }

    open spec fn spec_value(&self, input: Seq<u8>, v: &'a u8) -> bool {
        input.len() > 0 && *v == input[0]
    }

    proof fn lemma_parse_bounded(&self, input: Seq<u8>) {
    }

    fn parse(&self, input: &'a [u8]) -> (r: Result<(&'a [u8], Self::Output), &'a [u8]>) {
        if input.len() == 0 {
            return Err(input);
        }
        if input[0] == self.byte {
            Ok((&input[1..input.len()], &input[0]))
        } else {
            Err(input)
        }
    }
}

/// Matches if the first input byte, read as a character code point, equals
/// a fixed character; consumes one byte and yields that character.
///
/// This is a single-byte comparison, so it is only meaningful for
/// single-byte-encoded characters; a pattern character above `'\u{ff}'`
/// never matches.
pub struct Char {
    pub ch: char,
}

impl Char {
    pub fn new(ch: char) -> (r: Self)
        ensures
            r.ch == ch,
    {
        Self { ch }
    }
}

impl<'a> Parse<'a> for Char {
    type Output = char;

    open spec fn spec_parse(&self, input: Seq<u8>) -> Outcome {
        if input.len() > 0 && input[0] as char == self.ch {
            Outcome::Matched { consumed: 1 }
        } else {
            Outcome::Rejected { at: 0 }
        }
    }

    open spec fn spec_value(&self, input: Seq<u8>, v: char) -> bool {
        input.len() > 0 && v == input[0] as char
    }

    proof fn lemma_parse_bounded(&self, input: Seq<u8>) {
    }

    fn parse(&self, input: &'a [u8]) -> (r: Result<(&'a [u8], Self::Output), &'a [u8]>) {
        if input.len() == 0 {
            return Err(input);
        }
        let ch = input[0] as char;
        if self.ch == ch {
            Ok((&input[1..input.len()], ch))
        } else {
            Err(input)
        }
    }
}

/// Whether a byte, read as a character code point, is an ASCII alphabetic
/// character.
pub open spec fn is_alphabetic_byte(b: u8) -> bool {
    (65 <= b && b <= 90) || (97 <= b && b <= 122)
}

/// Whether a byte, read as a character code point, is a numeric character:
/// the ASCII digits together with the superscript and vulgar-fraction
/// characters of the Latin-1 range.
pub open spec fn is_numeric_byte(b: u8) -> bool {
    (48 <= b && b <= 57) || b == 178 || b == 179 || b == 185 || b == 188 || b == 189 || b == 190
}

/// Matches and consumes one byte if it is an ASCII alphabetic character;
/// yields it as a character.
pub struct AnyChar;

impl AnyChar {
    pub fn new() -> Self {
        Self {  }
    }
}

impl<'a> Parse<'a> for AnyChar {
    type Output = char;

    open spec fn spec_parse(&self, input: Seq<u8>) -> Outcome {
        if input.len() > 0 && is_alphabetic_byte(input[0]) {
            Outcome::Matched { consumed: 1 }
        } else {
            Outcome::Rejected { at: 0 }
        }
    }

    open spec fn spec_value(&self, input: Seq<u8>, v: char) -> bool {
        input.len() > 0 && v == input[0] as char
    }

    proof fn lemma_parse_bounded(&self, input: Seq<u8>) {
    }

    fn parse(&self, input: &'a [u8]) -> (r: Result<(&'a [u8], Self::Output), &'a [u8]>) {
        if input.len() == 0 {
            return Err(input);
        }
        let b = input[0];
        if (65 <= b && b <= 90) || (97 <= b && b <= 122) {
            Ok((&input[1..input.len()], b as char))
        } else {
            Err(input)
        }
    }
}

/// Matches and consumes one byte if it is a numeric character; yields it
/// as a character.
pub struct AnyDigit;

impl AnyDigit {
    pub fn new() -> Self {
        Self {  }
    }
}

impl<'a> Parse<'a> for AnyDigit {
    type Output = char;

    open spec fn spec_parse(&self, input: Seq<u8>) -> Outcome {
        if input.len() > 0 && is_numeric_byte(input[0]) {
            Outcome::Matched { consumed: 1 }
        } else {
            Outcome::Rejected { at: 0 }
        }
    }

    open spec fn spec_value(&self, input: Seq<u8>, v: char) -> bool {
        input.len() > 0 && v == input[0] as char
    }

    proof fn lemma_parse_bounded(&self, input: Seq<u8>) {
    }

    fn parse(&self, input: &'a [u8]) -> (r: Result<(&'a [u8], Self::Output), &'a [u8]>) {
        if input.len() == 0 {
            return Err(input);
        }
        let b = input[0];
        if (48 <= b && b <= 57) || b == 178 || b == 179 || b == 185 || b == 188 || b == 189 || b
            == 190 {
            Ok((&input[1..input.len()], b as char))
        } else {
            Err(input)
        }
    }
}

/// A literal byte-sequence matcher. It owns its own copy of the pattern,
/// so a grammar built from it can outlive any particular input buffer.
///
/// It rejects immediately when the input is shorter than the pattern;
/// otherwise it compares element-wise, consumes the pattern's length and
/// yields the matched zero-copy sub-slice.
pub struct Slice {
    pub bytes: Vec<u8>,
}

impl Slice {
    pub fn new(slice: &[u8]) -> (r: Self)
        ensures
            r.bytes@ == slice@,
    {
        Self { bytes: slice_to_vec(slice) }
    }

    pub fn len(&self) -> (r: usize)
        ensures
            r == self.bytes@.len(),
    {
        self.bytes.len()
    }
}

impl<'a> Parse<'a> for Slice {
    type Output = &'a [u8];

    open spec fn spec_parse(&self, input: Seq<u8>) -> Outcome {
        if input.len() >= self.bytes@.len() && input.take(self.bytes@.len() as int)
            == self.bytes@ {
            Outcome::Matched { consumed: self.bytes@.len() as int }
        } else {
            Outcome::Rejected { at: 0 }
        }
    }

    open spec fn spec_value(&self, input: Seq<u8>, v: &'a [u8]) -> bool {
        self.spec_parse(input) is Matched && v@ == self.bytes@
    }

    proof fn lemma_parse_bounded(&self, input: Seq<u8>) {
    }

    fn parse(&self, input: &'a [u8]) -> (r: Result<(&'a [u8], Self::Output), &'a [u8]>) {
        let n = self.bytes.len();
        if input.len() < n {
            return Err(input);
        }
        let mut idx: usize = 0;
        while idx < n
            invariant
                n == self.bytes@.len(),
                n <= input@.len(),
                idx <= n,
                forall|k: int| 0 <= k < idx ==> input@[k] == self.bytes@[k],
            decreases n - idx,
        {
            if self.bytes[idx] != input[idx] {
                proof {
                    assert(input@.take(n as int)[idx as int] != self.bytes@[idx as int]);
                }
                return Err(input);
            }
            idx += 1;
        }
        proof {
            assert(input@.take(n as int) =~= self.bytes@);
        }
        Ok((&input[n..input.len()], &input[0..n]))
    }
}

/// A side-effect-free value source: consumes nothing and invokes a
/// zero-argument producer on every call, returning its result paired with
/// the unchanged input. Used to seed an accumulator at the head of a
/// sequencing chain.
pub struct State<F, T> {
    pub f: F,
    pub marker: core::marker::PhantomData<T>,
}

impl<F, T> State<F, T> {
    pub fn new(f: F) -> (r: Self)
        ensures
            r.f == f,
    {
        Self { f, marker: core::marker::PhantomData }
    }
}

impl<'a, F, T> Parse<'a> for State<F, T> where F: Fn() -> T {
    type Output = T;

    open spec fn wf(&self) -> bool {
        call_requires(self.f, ())
    }

    open spec fn spec_parse(&self, input: Seq<u8>) -> Outcome {
        Outcome::Matched { consumed: 0 }
    }

    open spec fn spec_value(&self, input: Seq<u8>, v: T) -> bool {
        call_ensures(self.f, (), v)
    }

    proof fn lemma_parse_bounded(&self, input: Seq<u8>) {
    }

    fn parse(&self, input: &'a [u8]) -> (r: Result<(&'a [u8], Self::Output), &'a [u8]>) {
        let v = (self.f)();
        Ok((input, v))
    }
}

/// Delegates to a sub-parser and, on success, applies a transform to the
/// output, changing its type.
///
/// As a defensive guard it fails immediately on empty input, without even
/// trying the sub-parser.
pub struct Transform<P, F, B> {
    pub parser: P,
    pub f: F,
    pub marker: core::marker::PhantomData<B>,
}

impl<P, F, B> Transform<P, F, B> {
    pub fn new(parser: P, f: F) -> (r: Self)
        ensures
            r.parser == parser,
            r.f == f,
    {
        Self { parser, f, marker: core::marker::PhantomData }
    }
}

impl<'a, P, F, B> Parse<'a> for Transform<P, F, B> where P: Parse<'a>, F: Fn(P::Output) -> B {
    type Output = B;

    open spec fn wf(&self) -> bool {
        &&& self.parser.wf()
        &&& forall|a: P::Output| call_requires(self.f, (a,))
    }

    open spec fn spec_parse(&self, input: Seq<u8>) -> Outcome {
        if input.len() == 0 {
            Outcome::Rejected { at: 0 }
        } else {
            self.parser.spec_parse(input)
        }
    }

    open spec fn spec_value(&self, input: Seq<u8>, v: B) -> bool {
        exists|a: P::Output|
            #[trigger] self.parser.spec_value(input, a) && call_ensures(self.f, (a,), v)
    }

    proof fn lemma_parse_bounded(&self, input: Seq<u8>) {
        self.parser.lemma_parse_bounded(input);
    }

    fn parse(&self, input: &'a [u8]) -> (r: Result<(&'a [u8], Self::Output), &'a [u8]>) {
        if input.len() == 0 {
            return Err(input);
        }
        match self.parser.parse(input) {
            Ok((rest, a)) => {
                let ghost ga = a;
                let b = (self.f)(a);
                proof {
                    assert(self.parser.spec_value(input@, ga) && call_ensures(
                        self.f,
                        (ga,),
                        b,
                    ));
                }
                Ok((rest, b))
            },
            Err(residual) => Err(residual),
        }
    }
}

/// Runs the first parser, then the second on the remainder; yields the
/// pair of their outputs and fails with whichever sub-parser failed.
pub struct And<P1, P2> {
    pub parser1: P1,
    pub parser2: P2,
}

impl<P1, P2> And<P1, P2> {
    pub fn new(parser1: P1, parser2: P2) -> (r: Self)
        ensures
            r.parser1 == parser1,
            r.parser2 == parser2,
    {
        Self { parser1, parser2 }
    }
}

impl<'a, P1, P2> Parse<'a> for And<P1, P2> where P1: Parse<'a>, P2: Parse<'a> {
    type Output = (P1::Output, P2::Output);

    open spec fn wf(&self) -> bool {
        self.parser1.wf() && self.parser2.wf()
    }

    open spec fn spec_parse(&self, input: Seq<u8>) -> Outcome {
        match self.parser1.spec_parse(input) {
            Outcome::Rejected { at } => Outcome::Rejected { at },
            Outcome::Matched { consumed: c1 } => match self.parser2.spec_parse(
                input.skip(c1),
            ) {
                Outcome::Rejected { at } => Outcome::Rejected { at: c1 + at },
                Outcome::Matched { consumed: c2 } => Outcome::Matched { consumed: c1 + c2 },
            },
        }
    }

    open spec fn spec_value(&self, input: Seq<u8>, v: (P1::Output, P2::Output)) -> bool {
        &&& self.parser1.spec_value(input, v.0)
        &&& (self.parser1.spec_parse(input) matches Outcome::Matched { consumed }
            && self.parser2.spec_value(input.skip(consumed), v.1))
    }

    proof fn lemma_parse_bounded(&self, input: Seq<u8>) {
        self.parser1.lemma_parse_bounded(input);
        match self.parser1.spec_parse(input) {
            Outcome::Matched { consumed } => {
                self.parser2.lemma_parse_bounded(input.skip(consumed));
            },
            Outcome::Rejected { .. } => {
            },
        }
    }

    fn parse(&self, input: &'a [u8]) -> (r: Result<(&'a [u8], Self::Output), &'a [u8]>) {
        proof {
            self.parser1.lemma_parse_bounded(input@);
        }
        let (rest1, a) = match self.parser1.parse(input) {
            Ok(x) => x,
            Err(residual) => {
                return Err(residual);
            },
        };
        match self.parser2.parse(rest1) {
            Ok((rest2, b)) => {
                proof {
                    self.parser2.lemma_parse_bounded(rest1@);
                    let c1 = self.parser1.spec_parse(input@)->Matched_consumed;
                    let c2 = self.parser2.spec_parse(rest1@)->Matched_consumed;
                    assert(input@.skip(c1).skip(c2) =~= input@.skip(c1 + c2));
                }
                Ok((rest2, (a, b)))
            },
            Err(residual) => {
                proof {
                    self.parser2.lemma_parse_bounded(rest1@);
                    let c1 = self.parser1.spec_parse(input@)->Matched_consumed;
                    let at = self.parser2.spec_parse(rest1@)->Rejected_at;
                    assert(input@.skip(c1).skip(at) =~= input@.skip(c1 + at));
                }
                Err(residual)
            },
        }
    }
}

/// Ordered alternation: requires non-empty input, tries the first parser,
/// and only on its failure tries the second against the same original
/// input, so no partial consumption leaks from a failed left branch.
/// Whichever alternative succeeds determines the result; earlier
/// alternatives take precedence on overlapping matches.
pub struct Or<P1, P2> {
    pub parser1: P1,
    pub parser2: P2,
}

impl<P1, P2> Or<P1, P2> {
    pub fn new(parser1: P1, parser2: P2) -> (r: Self)
        ensures
            r.parser1 == parser1,
            r.parser2 == parser2,
    {
        Self { parser1, parser2 }
    }
}

impl<'a, P1, P2> Parse<'a> for Or<P1, P2> where
    P1: Parse<'a>,
    P2: Parse<'a, Output = P1::Output>,
 {
    type Output = P1::Output;

    open spec fn wf(&self) -> bool {
        self.parser1.wf() && self.parser2.wf()
    }

    open spec fn spec_parse(&self, input: Seq<u8>) -> Outcome {
        if input.len() == 0 {
            Outcome::Rejected { at: 0 }
        } else {
            match self.parser1.spec_parse(input) {
                Outcome::Matched { consumed } => Outcome::Matched { consumed },
                Outcome::Rejected { .. } => self.parser2.spec_parse(input),
            }
        }
    }

    open spec fn spec_value(&self, input: Seq<u8>, v: P1::Output) -> bool {
        if input.len() == 0 {
            false
        } else if self.parser1.spec_parse(input) is Matched {
            self.parser1.spec_value(input, v)
        } else {
            self.parser2.spec_value(input, v)
        }
    }

    proof fn lemma_parse_bounded(&self, input: Seq<u8>) {
        self.parser1.lemma_parse_bounded(input);
        self.parser2.lemma_parse_bounded(input);
    }

    fn parse(&self, input: &'a [u8]) -> (r: Result<(&'a [u8], Self::Output), &'a [u8]>) {
        if input.len() == 0 {
            return Err(input);
        }
        match self.parser1.parse(input) {
            Ok(x) => Ok(x),
            Err(_) => self.parser2.parse(input),
        }
    }
}

/// The same sequencing as [`And`], but discards the second parser's output
/// and returns only the first's; used to consume and ignore expected
/// separators and terminators.
pub struct Skip<P1, P2> {
    pub parser1: P1,
    pub parser2: P2,
}

impl<P1, P2> Skip<P1, P2> {
    pub fn new(parser1: P1, parser2: P2) -> (r: Self)
        ensures
            r.parser1 == parser1,
            r.parser2 == parser2,
    {
        Self { parser1, parser2 }
    }
}

impl<'a, P1, P2> Parse<'a> for Skip<P1, P2> where P1: Parse<'a>, P2: Parse<'a> {
    type Output = P1::Output;

    open spec fn wf(&self) -> bool {
        self.parser1.wf() && self.parser2.wf()
    }

    open spec fn spec_parse(&self, input: Seq<u8>) -> Outcome {
        match self.parser1.spec_parse(input) {
            Outcome::Rejected { at } => Outcome::Rejected { at },
            Outcome::Matched { consumed: c1 } => match self.parser2.spec_parse(
                input.skip(c1),
            ) {
                Outcome::Rejected { at } => Outcome::Rejected { at: c1 + at },
                Outcome::Matched { consumed: c2 } => Outcome::Matched { consumed: c1 + c2 },
            },
        }
    }

    open spec fn spec_value(&self, input: Seq<u8>, v: P1::Output) -> bool {
        self.spec_parse(input) is Matched && self.parser1.spec_value(input, v)
    }

    proof fn lemma_parse_bounded(&self, input: Seq<u8>) {
        self.parser1.lemma_parse_bounded(input);
        match self.parser1.spec_parse(input) {
            Outcome::Matched { consumed } => {
                self.parser2.lemma_parse_bounded(input.skip(consumed));
            },
            Outcome::Rejected { .. } => {
            },
        }
    }

    fn parse(&self, input: &'a [u8]) -> (r: Result<(&'a [u8], Self::Output), &'a [u8]>) {
        proof {
            self.parser1.lemma_parse_bounded(input@);
        }
        let (rest1, v) = match self.parser1.parse(input) {
            Ok(x) => x,
            Err(residual) => {
                return Err(residual);
            },
        };
        match self.parser2.parse(rest1) {
            Ok((rest2, _)) => {
                proof {
                    self.parser2.lemma_parse_bounded(rest1@);
                    let c1 = self.parser1.spec_parse(input@)->Matched_consumed;
                    let c2 = self.parser2.spec_parse(rest1@)->Matched_consumed;
                    assert(input@.skip(c1).skip(c2) =~= input@.skip(c1 + c2));
                }
                Ok((rest2, v))
            },
            Err(residual) => {
                proof {
                    self.parser2.lemma_parse_bounded(rest1@);
                    let c1 = self.parser1.spec_parse(input@)->Matched_consumed;
                    let at = self.parser2.spec_parse(rest1@)->Rejected_at;
                    assert(input@.skip(c1).skip(at) =~= input@.skip(c1 + at));
                }
                Err(residual)
            },
        }
    }
}


/// The repeated sub-parser consumes at least one byte on every success.
///
/// This is the documented precondition of the repetition combinators: a
/// sub-parser that can succeed without consuming anything would make the
/// repetition loop forever, so it is a caller obligation, not a runtime
/// check.
pub open spec fn productive<'a, P: Parse<'a>>(p: P) -> bool {
    forall|input: Seq<u8>| (#[trigger] p.spec_parse(input)) matches Outcome::Matched { consumed }
        ==> consumed >= 1
}

/// The total number of bytes consumed by applying `p` repeatedly against
/// the advancing cursor until its first failure.
pub open spec fn spec_repeat_consumed<'a, P: Parse<'a>>(p: P, input: Seq<u8>) -> int
    decreases input.len(),
{
    match p.spec_parse(input) {
        Outcome::Rejected { .. } => 0,
        Outcome::Matched { consumed } => if 1 <= consumed <= input.len() {
            consumed + spec_repeat_consumed(p, input.skip(consumed))
        } else {
            0
        },
    }
}

/// Which sequences of values applying `p` repeatedly until its first
/// failure may collect, in order.
pub open spec fn spec_repeat_values<'a, P: Parse<'a>>(
    p: P,
    input: Seq<u8>,
    vs: Seq<P::Output>,
) -> bool
    decreases input.len(),
{
    match p.spec_parse(input) {
        Outcome::Rejected { .. } => vs.len() == 0,
        Outcome::Matched { consumed } => if 1 <= consumed <= input.len() {
            &&& vs.len() >= 1
            &&& p.spec_value(input, vs[0])
            &&& spec_repeat_values(p, input.skip(consumed), vs.skip(1))
        } else {
            vs.len() == 0
        },
    }
}

/// Repetition never consumes more than the cursor holds.
pub proof fn lemma_repeat_consumed_bounded<'a, P: Parse<'a>>(p: P, input: Seq<u8>)
    ensures
        0 <= spec_repeat_consumed(p, input) <= input.len(),
    decreases input.len(),
{
    match p.spec_parse(input) {
        Outcome::Rejected { .. } => {
        },
        Outcome::Matched { consumed } => {
            if 1 <= consumed <= input.len() {
                lemma_repeat_consumed_bounded(p, input.skip(consumed));
            }
        },
    }
}

/// Applies its sub-parser zero or more times against the advancing cursor,
/// collecting the outputs in order and stopping at the first failure; it
/// succeeds with an empty sequence if the very first attempt fails, but
/// requires non-empty input up front.
pub struct Many0<P> {
    pub parser: P,
}

impl<P> Many0<P> {
    pub fn new(parser: P) -> (r: Self)
        ensures
            r.parser == parser,
    {
        Self { parser }
    }
}

impl<'a, P> Parse<'a> for Many0<P> where P: Parse<'a> {
    type Output = Vec<P::Output>;

    open spec fn wf(&self) -> bool {
        self.parser.wf() && productive(self.parser)
    }

    open spec fn spec_parse(&self, input: Seq<u8>) -> Outcome {
        if input.len() == 0 {
            Outcome::Rejected { at: 0 }
        } else {
            Outcome::Matched { consumed: spec_repeat_consumed(self.parser, input) }
        }
    }

    open spec fn spec_value(&self, input: Seq<u8>, v: Vec<P::Output>) -> bool {
        input.len() > 0 && spec_repeat_values(self.parser, input, v@)
    }

    proof fn lemma_parse_bounded(&self, input: Seq<u8>) {
        lemma_repeat_consumed_bounded(self.parser, input);
    }

    fn parse(&self, input: &'a [u8]) -> (r: Result<(&'a [u8], Self::Output), &'a [u8]>) {
        if input.len() == 0 {
            return Err(input);
        }
        let mut xs: Vec<P::Output> = Vec::new();
        let mut cur: &'a [u8] = input;
        proof {
            assert forall|rest: Seq<P::Output>|
                #[trigger] spec_repeat_values(self.parser, cur@, rest) implies spec_repeat_values(
                self.parser,
                input@,
                xs@ + rest,
            ) by {
                assert(xs@ + rest =~= rest);
            }
        }
        loop
            invariant
                self.parser.wf(),
                productive(self.parser),
                input@.len() > 0,
                cur@.len() <= input@.len(),
                cur@ == input@.skip(input@.len() - cur@.len()),
                spec_repeat_consumed(self.parser, input@) == (input@.len() - cur@.len())
                    + spec_repeat_consumed(self.parser, cur@),
                forall|rest: Seq<P::Output>|
                    #[trigger] spec_repeat_values(self.parser, cur@, rest)
                        ==> spec_repeat_values(self.parser, input@, xs@ + rest),
            decreases cur@.len(),
        {
            match self.parser.parse(cur) {
                Ok((next, item)) => {
                    proof {
                        self.parser.lemma_parse_bounded(cur@);
                        let c = self.parser.spec_parse(cur@)->Matched_consumed;
                        assert(spec_repeat_consumed(self.parser, cur@) == c
                            + spec_repeat_consumed(self.parser, next@));
                        let ghost gitem = item;
                        assert forall|rest2: Seq<P::Output>|
                            #[trigger] spec_repeat_values(self.parser, next@, rest2)
                                implies spec_repeat_values(
                            self.parser,
                            input@,
                            xs@.push(gitem) + rest2,
                        ) by {
                            let rest1 = seq![gitem] + rest2;
                            assert(rest1.skip(1) =~= rest2);
                            assert(rest1[0] == gitem);
                            assert(spec_repeat_values(self.parser, cur@, rest1));
                            assert(xs@.push(gitem) + rest2 =~= xs@ + rest1);
                        }
                        assert(next@ =~= input@.skip(input@.len() - next@.len()));
                    }
                    xs.push(item);
                    cur = next;
                },
                Err(_) => {
                    proof {
                        assert(spec_repeat_values(self.parser, cur@, Seq::<P::Output>::empty()));
                        assert(xs@ + Seq::<P::Output>::empty() =~= xs@);
                    }
                    return Ok((cur, xs));
                },
            }
        }
    }
}

/// Like [`Many0`], but fails outright if the very first application of the
/// sub-parser fails: on success the collected sequence is never empty.
pub struct Many1<P> {
    pub parser: P,
}

impl<P> Many1<P> {
    pub fn new(parser: P) -> (r: Self)
        ensures
            r.parser == parser,
    {
        Self { parser }
    }
}

impl<'a, P> Parse<'a> for Many1<P> where P: Parse<'a> {
    type Output = Vec<P::Output>;

    open spec fn wf(&self) -> bool {
        self.parser.wf() && productive(self.parser)
    }

    open spec fn spec_parse(&self, input: Seq<u8>) -> Outcome {
        if input.len() == 0 {
            Outcome::Rejected { at: 0 }
        } else if self.parser.spec_parse(input) is Rejected {
            Outcome::Rejected { at: 0 }
        } else {
            Outcome::Matched { consumed: spec_repeat_consumed(self.parser, input) }
        }
    }

    open spec fn spec_value(&self, input: Seq<u8>, v: Vec<P::Output>) -> bool {
        &&& input.len() > 0
        &&& self.parser.spec_parse(input) is Matched
        &&& spec_repeat_values(self.parser, input, v@)
    }

    proof fn lemma_parse_bounded(&self, input: Seq<u8>) {
        lemma_repeat_consumed_bounded(self.parser, input);
    }

    fn parse(&self, input: &'a [u8]) -> (r: Result<(&'a [u8], Self::Output), &'a [u8]>) {
        if input.len() == 0 {
            return Err(input);
        }
        let mut xs: Vec<P::Output> = Vec::new();
        let mut cur: &'a [u8] = input;
        match self.parser.parse(cur) {
            Ok((next, item)) => {
                proof {
                    self.parser.lemma_parse_bounded(cur@);
                    let c = self.parser.spec_parse(cur@)->Matched_consumed;
                    assert(spec_repeat_consumed(self.parser, cur@) == c
                        + spec_repeat_consumed(self.parser, next@));
                    let ghost gitem = item;
                    assert forall|rest2: Seq<P::Output>|
                        #[trigger] spec_repeat_values(self.parser, next@, rest2)
                            implies spec_repeat_values(
                        self.parser,
                        input@,
                        xs@.push(gitem) + rest2,
                    ) by {
                        let rest1 = seq![gitem] + rest2;
                        assert(rest1.skip(1) =~= rest2);
                        assert(rest1[0] == gitem);
                        assert(spec_repeat_values(self.parser, cur@, rest1));
                        assert(xs@.push(gitem) + rest2 =~= xs@ + rest1);
                    }
                    assert(next@ =~= input@.skip(input@.len() - next@.len()));
                }
                xs.push(item);
                cur = next;
            },
            Err(_) => {
                return Err(input);
            },
        }
        loop
            invariant
                self.parser.wf(),
                productive(self.parser),
                input@.len() > 0,
                self.parser.spec_parse(input@) is Matched,
                cur@.len() <= input@.len(),
                cur@ == input@.skip(input@.len() - cur@.len()),
                spec_repeat_consumed(self.parser, input@) == (input@.len() - cur@.len())
                    + spec_repeat_consumed(self.parser, cur@),
                forall|rest: Seq<P::Output>|
                    #[trigger] spec_repeat_values(self.parser, cur@, rest)
                        ==> spec_repeat_values(self.parser, input@, xs@ + rest),
            decreases cur@.len(),
        {
            match self.parser.parse(cur) {
                Ok((next, item)) => {
                    proof {
                        self.parser.lemma_parse_bounded(cur@);
                        let c = self.parser.spec_parse(cur@)->Matched_consumed;
                        assert(spec_repeat_consumed(self.parser, cur@) == c
                            + spec_repeat_consumed(self.parser, next@));
                        let ghost gitem = item;
                        assert forall|rest2: Seq<P::Output>|
                            #[trigger] spec_repeat_values(self.parser, next@, rest2)
                                implies spec_repeat_values(
                            self.parser,
                            input@,
                            xs@.push(gitem) + rest2,
                        ) by {
                            let rest1 = seq![gitem] + rest2;
                            assert(rest1.skip(1) =~= rest2);
                            assert(rest1[0] == gitem);
                            assert(spec_repeat_values(self.parser, cur@, rest1));
                            assert(xs@.push(gitem) + rest2 =~= xs@ + rest1);
                        }
                        assert(next@ =~= input@.skip(input@.len() - next@.len()));
                    }
                    xs.push(item);
                    cur = next;
                },
                Err(_) => {
                    proof {
                        assert(spec_repeat_values(self.parser, cur@, Seq::<P::Output>::empty()));
                        assert(xs@ + Seq::<P::Output>::empty() =~= xs@);
                    }
                    return Ok((cur, xs));
                },
            }
        }
    }
}

/// The least byte offset of the cursor at which the delimiter parser
/// matches, scanning one byte at a time, if there is any.
pub open spec fn spec_scan_offset<'a, P: Parse<'a>>(p: P, input: Seq<u8>) -> Option<int>
    decreases input.len(),
{
    if p.spec_parse(input) is Matched {
        Some(0)
    } else if input.len() == 0 {
        None
    } else {
        match spec_scan_offset(p, input.skip(1)) {
            None => None,
            Some(k) => Some(1 + k),
        }
    }
}

/// A found delimiter offset lies within the cursor.
pub proof fn lemma_scan_offset_bounded<'a, P: Parse<'a>>(p: P, input: Seq<u8>)
    ensures
        spec_scan_offset(p, input) matches Some(k) ==> 0 <= k <= input.len(),
    decreases input.len(),
{
    if p.spec_parse(input) is Matched {
    } else if input.len() == 0 {
    } else {
        lemma_scan_offset_bounded(p, input.skip(1));
    }
}

/// Scan-until: returns the longest prefix of the input preceding the first
/// position at which a delimiter sub-parser matches, without consuming the
/// delimiter itself — the remaining cursor begins exactly at the
/// delimiter's start. If the input is exhausted with no match, it fails:
/// a delimiter-less input is an unconditional failure, never "consume
/// everything".
pub struct TakeUntil<P> {
    pub parser: P,
}

impl<P> TakeUntil<P> {
    pub fn new(parser: P) -> (r: Self)
        ensures
            r.parser == parser,
    {
        Self { parser }
    }
}

impl<'a, P> Parse<'a> for TakeUntil<P> where P: Parse<'a> {
    type Output = &'a [u8];

    open spec fn wf(&self) -> bool {
        self.parser.wf()
    }

    open spec fn spec_parse(&self, input: Seq<u8>) -> Outcome {
        match spec_scan_offset(self.parser, input) {
            Some(k) => Outcome::Matched { consumed: k },
            None => Outcome::Rejected { at: 0 },
        }
    }

    open spec fn spec_value(&self, input: Seq<u8>, v: &'a [u8]) -> bool {
        spec_scan_offset(self.parser, input) matches Some(k) && v@ == input.take(k)
    }

    proof fn lemma_parse_bounded(&self, input: Seq<u8>) {
        lemma_scan_offset_bounded(self.parser, input);
    }

    fn parse(&self, input: &'a [u8]) -> (r: Result<(&'a [u8], Self::Output), &'a [u8]>) {
        let mut count: usize = 0;
        let mut temp: &'a [u8] = input;
        let total = input.len();
        loop
            invariant
                self.parser.wf(),
                total == input@.len(),
                count + temp@.len() == input@.len(),
                temp@ == input@.skip(count as int),
                spec_scan_offset(self.parser, input@) == (match spec_scan_offset(
                    self.parser,
                    temp@,
                ) {
                    None => None::<int>,
                    Some(k) => Some(count + k),
                }),
            decreases temp@.len(),
        {
            match self.parser.parse(temp) {
                Ok(_) => {
                    proof {
                        assert(spec_scan_offset(self.parser, temp@) == Some(0int));
                        assert(input@.skip(count as int) =~= input@.subrange(
                            count as int,
                            input@.len() as int,
                        ));
                        assert(input@.take(count as int) =~= input@.subrange(0, count as int));
                    }
                    return Ok((&input[count..input.len()], &input[0..count]));
                },
                Err(_) => {
                    if temp.len() == 0 {
                        proof {
                            assert(spec_scan_offset(self.parser, temp@) is None);
                            assert(input@.skip(0) =~= input@);
                        }
                        return Err(input);
                    }
                    proof {
                        assert(temp@.subrange(1, temp@.len() as int) =~= temp@.skip(1));
                        assert(input@.skip(count + 1) =~= temp@.skip(1));
                    }
                    temp = &temp[1..temp.len()];
                    count += 1;
                },
            }
        }
    }
}

} // verus!
