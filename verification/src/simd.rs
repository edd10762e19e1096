//! The accelerated literal scan.
//!
//! These matchers replace the scalar [`crate::parser::Slice`] /
//! [`crate::parser::TakeUntil`] pairing for short literal patterns
//! (strictly fewer than 16 bytes, a hard construction-time precondition).
//! They model a vectorized ordered-string comparison: the haystack is read
//! in fixed 16-byte strides, and each stride reports the first offset
//! within its 16-byte window at which the whole pattern occurs.
//!
//! Known limitation, preserved intentionally: a pattern occurrence that
//! straddles the boundary between two 16-byte strides is *not* detected by
//! the per-stride scan. This is an accepted behavioural gap of the
//! fixed-chunk strategy, and it is stated explicitly by [`chunk_hit`]
//! rather than silently corrected; [`crate::laws`] pins down exactly when
//! the chunked scan and the scalar scan agree.

use vstd::prelude::*;
use vstd::slice::slice_to_vec;

use crate::parser::Outcome;
use crate::parser::Parse;
use crate::cell::Cell;

verus! {

/// The pattern occurs in the haystack starting at byte offset `i`.
pub open spec fn matches_at(hay: Seq<u8>, pat: Seq<u8>, i: int) -> bool {
    &&& 0 <= i
    &&& i + pat.len() <= hay.len()
    &&& hay.subrange(i, i + pat.len()) == pat
}

/// A pattern occurrence that the chunked scan can see: it starts inside
/// the haystack and lies entirely within the 16-byte stride that holds its
/// first byte. An occurrence that straddles a stride boundary is no hit.
pub open spec fn chunk_hit(hay: Seq<u8>, pat: Seq<u8>, i: int) -> bool {
    &&& 0 <= i < hay.len()
    &&& i % 16 + pat.len() <= 16
    &&& matches_at(hay, pat, i)
}

/// The least offset at or after `i` that is a [`chunk_hit`], if any.
pub open spec fn spec_find_from(hay: Seq<u8>, pat: Seq<u8>, i: int) -> Option<int>
    decreases hay.len() - i,
{
    if i >= hay.len() {
        None
    } else if chunk_hit(hay, pat, i) {
        Some(i)
    } else {
        spec_find_from(hay, pat, i + 1)
    }
}

/// What the chunked scan reports on a whole haystack: the first stride
/// with a hit wins, and within a stride the least offset wins.
pub open spec fn spec_chunked_find(hay: Seq<u8>, pat: Seq<u8>) -> Option<int> {
    spec_find_from(hay, pat, 0)
}

/// What [`spec_find_from`] reports is the least hit at or after `i`, and
/// a `None` means there is none at all.
pub proof fn lemma_find_from_spec(hay: Seq<u8>, pat: Seq<u8>, i: int)
    ensures
        spec_find_from(hay, pat, i) matches Some(k) ==> i <= k < hay.len() && chunk_hit(
            hay,
            pat,
            k,
        ) && (forall|j: int| i <= j < k ==> !chunk_hit(hay, pat, j)),
        spec_find_from(hay, pat, i) is None ==> (forall|j: int|
            j >= i ==> !chunk_hit(hay, pat, j)),
    decreases hay.len() - i,
{
    if i >= hay.len() {
    } else if chunk_hit(hay, pat, i) {
    } else {
        lemma_find_from_spec(hay, pat, i + 1);
    }
}

/// Whether the pattern occurs at offset `at` of the haystack, compared
/// element-wise.
fn prefix_matches(hay: &[u8], pat: &[u8], at: usize) -> (r: bool)
    requires
        at + pat@.len() <= hay@.len(),
    ensures
        r <==> matches_at(hay@, pat@, at as int),
{
    let n = pat.len();
    let hl = hay.len();
    let mut k: usize = 0;
    while k < n
        invariant
            n == pat@.len(),
            hl == hay@.len(),
            at + n <= hay@.len(),
            k <= n,
            forall|t: int| 0 <= t < k ==> hay@[at + t] == pat@[t],
        decreases n - k,
    {
        if hay[at + k] != pat[k] {
            proof {
                assert(hay@.subrange(at as int, at + n)[k as int] != pat@[k as int]);
            }
            return false;
        }
        k += 1;
    }
    proof {
        assert(hay@.subrange(at as int, at + n) =~= pat@);
    }
    true
}

/// The chunked scan underlying the accelerated matchers.
///
/// It reports the first offset in the haystack at which the needle occurs
/// wholly within one 16-byte stride, or nothing if there is no such
/// occurrence — in particular, an occurrence that straddles a stride
/// boundary is passed over.
pub fn compare(haystack: &[u8], needle: &[u8]) -> (r: Option<usize>)
    requires
        needle@.len() < 16,
    ensures
        r matches Some(i) ==> spec_chunked_find(haystack@, needle@) == Some(i as int),
        r is None ==> spec_chunked_find(haystack@, needle@) is None,
{
    let n = needle.len();
    let hlen = haystack.len();
    let mut j: usize = 0;
    while j < hlen
        invariant
            n == needle@.len(),
            hlen == haystack@.len(),
            n < 16,
            j <= hlen,
            spec_chunked_find(haystack@, needle@) == spec_find_from(haystack@, needle@, j as int),
        decreases hlen - j,
    {
        if j % 16 + n <= 16 && n <= hlen - j {
            if prefix_matches(haystack, needle, j) {
                proof {
                    assert(chunk_hit(haystack@, needle@, j as int));
                }
                return Some(j);
            }
        }
        proof {
            assert(!chunk_hit(haystack@, needle@, j as int));
            assert(spec_find_from(haystack@, needle@, j as int) == spec_find_from(
                haystack@,
                needle@,
                j + 1,
            ));
        }
        j += 1;
    }
    None
}

/// The accelerated equivalent of the scalar [`crate::parser::Slice`]: a
/// literal matcher for a pattern of fewer than 16 bytes, checked through
/// the chunked scan over the input's leading window.
pub struct Slice {
    pub bytes: Vec<u8>,
}

impl Slice {
    pub fn new(bytes: &[u8]) -> (r: Self)
        requires
            bytes@.len() < 16,
        ensures
            r.bytes@ == bytes@,
    {
        Self { bytes: slice_to_vec(bytes) }
    }

    pub fn len(&self) -> (r: usize)
        ensures
            r == self.bytes@.len(),
    {
        self.bytes.len()
    }
}

impl<'a> Parse<'a> for Slice {
    type Output = &'a [u8];

    open spec fn wf(&self) -> bool {
        self.bytes@.len() < 16
    }

    open spec fn spec_parse(&self, input: Seq<u8>) -> Outcome {
        if input.len() < self.bytes@.len() {
            Outcome::Rejected { at: 0 }
        } else {
            match spec_chunked_find(input.take(self.bytes@.len() as int), self.bytes@) {
                Some(_) => Outcome::Matched { consumed: self.bytes@.len() as int },
                None => Outcome::Rejected { at: 0 },
            }
        }
    }

    open spec fn spec_value(&self, input: Seq<u8>, v: &'a [u8]) -> bool {
        self.spec_parse(input) is Matched && v@ == input.take(self.bytes@.len() as int)
    }

    proof fn lemma_parse_bounded(&self, input: Seq<u8>) {
    }

    fn parse(&self, input: &'a [u8]) -> (r: Result<(&'a [u8], Self::Output), &'a [u8]>) {
        let n = self.bytes.len();
        if input.len() < n {
            return Err(input);
        }
        let window = &input[0..n];
        match compare(window, self.bytes.as_slice()) {
            Some(_) => Ok((&input[n..input.len()], &input[0..n])),
            None => Err(input),
        }
    }
}

/// The accelerated equivalent of pairing [`crate::parser::TakeUntil`]
/// with a literal delimiter: yields the prefix before the first chunked
/// hit of the pattern, leaving the cursor at the hit's start, and fails
/// when the chunked scan sees no occurrence at all.
pub struct TakeUntilLiteral {
    pub bytes: Vec<u8>,
}

impl TakeUntilLiteral {
    pub fn new(bytes: &[u8]) -> (r: Self)
        requires
            bytes@.len() < 16,
        ensures
            r.bytes@ == bytes@,
    {
        Self { bytes: slice_to_vec(bytes) }
    }
}

impl<'a> Parse<'a> for TakeUntilLiteral {
    type Output = &'a [u8];

    open spec fn wf(&self) -> bool {
        self.bytes@.len() < 16
    }

    open spec fn spec_parse(&self, input: Seq<u8>) -> Outcome {
        match spec_chunked_find(input, self.bytes@) {
            Some(i) => Outcome::Matched { consumed: i },
            None => Outcome::Rejected { at: 0 },
        }
    }

    open spec fn spec_value(&self, input: Seq<u8>, v: &'a [u8]) -> bool {
        spec_chunked_find(input, self.bytes@) matches Some(i) && v@ == input.take(i)
    }

    proof fn lemma_parse_bounded(&self, input: Seq<u8>) {
        lemma_find_from_spec(input, self.bytes@, 0);
    }

    fn parse(&self, input: &'a [u8]) -> (r: Result<(&'a [u8], Self::Output), &'a [u8]>) {
        match compare(input, self.bytes.as_slice()) {
            Some(idx) => {
                proof {
                    lemma_find_from_spec(input@, self.bytes@, 0);
                }
                Ok((&input[idx..input.len()], &input[0..idx]))
            },
            None => Err(input),
        }
    }
}

/// Scan until a literal delimiter through the chunked scan: see
/// [`TakeUntilLiteral`].
pub fn take_until_literal(bytes: &[u8]) -> (r: Cell<TakeUntilLiteral>)
    requires
        bytes@.len() < 16,
    ensures
        r.parser.bytes@ == bytes@,
{
    Cell::new(TakeUntilLiteral::new(bytes))
}

} // verus!
