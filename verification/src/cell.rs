//! The ergonomic composition wrapper.
//!
//! [`Cell`] is a thin facade over the combinator structs of
//! [`crate::parser`]: it enables fluent chaining of matchers without every
//! call site naming the concrete combinator types, and adds no semantics
//! of its own. The free functions below build the common matchers already
//! wrapped in a [`Cell`].

use vstd::prelude::*;

use crate::parser::And;
use crate::parser::AnyChar;
use crate::parser::AnyDigit;
use crate::parser::Byte;
use crate::parser::Char;
use crate::parser::Many0;
use crate::parser::Many1;
use crate::parser::Or;
use crate::parser::Outcome;
use crate::parser::Parse;
use crate::parser::Skip;
use crate::parser::Slice;
use crate::parser::State;
use crate::parser::TakeUntil;
use crate::parser::Transform;

verus! {

/// A transparent wrapper around a parser, carrying the fluent builder
/// methods. Parsing through the wrapper is exactly parsing the wrapped
/// parser.
pub struct Cell<P> {
    pub parser: P,
}

impl<P> Cell<P> {
    pub fn new(parser: P) -> (r: Self)
        ensures
            r.parser == parser,
    {
        Self { parser }
    }

    /// Unwrap the underlying parser.
    pub fn take(self) -> (r: P)
        ensures
            r == self.parser,
    {
        self.parser
    }

    /// Chain an output transform: wrap this parser in [`Transform`].
    pub fn map<'a, B, F>(self, f: F) -> (r: Cell<Transform<P, F, B>>) where
        P: Parse<'a>,
        F: Fn(P::Output) -> B,

        ensures
            r.parser.parser == self.parser,
            r.parser.f == f,
    {
        Cell::new(Transform::new(self.take(), f))
    }

    /// Chain an ordered alternative: wrap this parser and `rhs` in [`Or`],
    /// with this parser as the earlier, preferred alternative.
    pub fn or<'a, Rhs>(self, rhs: Cell<Rhs>) -> (r: Cell<Or<P, Rhs>>) where
        P: Parse<'a>,
        Rhs: Parse<'a, Output = P::Output>,

        ensures
            r.parser.parser1 == self.parser,
            r.parser.parser2 == rhs.parser,
    {
        Cell::new(Or::new(self.take(), rhs.take()))
    }

    /// Chain a sequel: wrap this parser and `rhs` in [`And`], pairing the
    /// outputs.
    pub fn then<'a, Rhs>(self, rhs: Cell<Rhs>) -> (r: Cell<And<P, Rhs>>) where
        P: Parse<'a>,
        Rhs: Parse<'a>,

        ensures
            r.parser.parser1 == self.parser,
            r.parser.parser2 == rhs.parser,
    {
        Cell::new(And::new(self.take(), rhs.take()))
    }

    /// Chain a discarded sequel: wrap this parser and `rhs` in [`Skip`],
    /// keeping only this parser's output.
    pub fn skip<'a, Rhs>(self, rhs: Cell<Rhs>) -> (r: Cell<Skip<P, Rhs>>) where
        P: Parse<'a>,
        Rhs: Parse<'a>,

        ensures
            r.parser.parser1 == self.parser,
            r.parser.parser2 == rhs.parser,
    {
        Cell::new(Skip::new(self.take(), rhs.take()))
    }

    /// Chain a discarded prefix: wrap `rhs` and this parser in [`Skip`]
    /// the other way round, keeping only `rhs`'s output.
    pub fn skip_left<'a, Rhs>(self, rhs: Cell<Rhs>) -> (r: Cell<Skip<Rhs, P>>) where
        P: Parse<'a>,
        Rhs: Parse<'a>,

        ensures
            r.parser.parser1 == rhs.parser,
            r.parser.parser2 == self.parser,
    {
        Cell::new(Skip::new(rhs.take(), self.take()))
    }
}

impl<'a, P> Parse<'a> for Cell<P> where P: Parse<'a> {
    type Output = P::Output;

    open spec fn wf(&self) -> bool {
        self.parser.wf()
    }

    open spec fn spec_parse(&self, input: Seq<u8>) -> Outcome {
        self.parser.spec_parse(input)
    }

    open spec fn spec_value(&self, input: Seq<u8>, v: P::Output) -> bool {
        self.parser.spec_value(input, v)
    }

    proof fn lemma_parse_bounded(&self, input: Seq<u8>) {
        self.parser.lemma_parse_bounded(input);
    }

    fn parse(&self, input: &'a [u8]) -> (r: Result<(&'a [u8], Self::Output), &'a [u8]>) {
        self.parser.parse(input)
    }
}

/// Wrap a parser in a [`Cell`].
pub fn cell<'a, P>(parser: P) -> (r: Cell<P>) where P: Parse<'a>
    ensures
        r.parser == parser,
{
    Cell::new(parser)
}

/// A value source that consumes nothing: see [`State`].
pub fn state<'a, F, T>(f: F) -> (r: Cell<State<F, T>>) where F: Fn() -> T
    ensures
        r.parser.f == f,
{
    Cell::new(State::new(f))
}

/// Zero-or-more repetition: see [`Many0`].
pub fn many0<'a, P>(parser: P) -> (r: Cell<Many0<P>>) where P: Parse<'a>
    ensures
        r.parser.parser == parser,
{
    Cell::new(Many0::new(parser))
}

/// One-or-more repetition: see [`Many1`].
pub fn many1<'a, P>(parser: P) -> (r: Cell<Many1<P>>) where P: Parse<'a>
    ensures
        r.parser.parser == parser,
{
    Cell::new(Many1::new(parser))
}

/// Sequence two parsers, discarding the second's output: see [`Skip`].
pub fn skip<'a, P1, P2>(p1: P1, p2: P2) -> (r: Cell<Skip<P1, P2>>) where
    P1: Parse<'a>,
    P2: Parse<'a>,

    ensures
        r.parser.parser1 == p1,
        r.parser.parser2 == p2,
{
    Cell::new(Skip::new(p1, p2))
}

/// Sequence two parsers, discarding the first's output: see [`Skip`].
pub fn skip_left<'a, P1, P2>(p1: P1, p2: P2) -> (r: Cell<Skip<P2, P1>>) where
    P1: Parse<'a>,
    P2: Parse<'a>,

    ensures
        r.parser.parser1 == p2,
        r.parser.parser2 == p1,
{
    Cell::new(Skip::new(p2, p1))
}

/// Scan until a delimiter parser matches: see [`TakeUntil`].
pub fn take_until<'a, P>(parser: P) -> (r: Cell<TakeUntil<P>>) where P: Parse<'a>
    ensures
        r.parser.parser == parser,
{
    Cell::new(TakeUntil::new(parser))
}

/// Match any ASCII alphabetic byte: see [`AnyChar`].
pub fn any_char() -> Cell<AnyChar> {
    Cell::new(AnyChar::new())
}

/// Match any numeric byte: see [`AnyDigit`].
pub fn any_digit() -> Cell<AnyDigit> {
    Cell::new(AnyDigit::new())
}

/// Match one fixed byte: see [`Byte`].
pub fn byte(b: u8) -> (r: Cell<Byte>)
    ensures
        r.parser.byte == b,
{
    Cell::new(Byte::new(b))
}

/// Match one fixed character: see [`Char`].
pub fn chr(ch: char) -> (r: Cell<Char>)
    ensures
        r.parser.ch == ch,
{
    Cell::new(Char::new(ch))
}

/// Match a literal byte sequence: see [`Slice`].
pub fn slice(bytes: &[u8]) -> (r: Cell<Slice>)
    ensures
        r.parser.bytes@ == bytes@,
{
    Cell::new(Slice::new(bytes))
}

} // verus!
