//! A minimal algebra of byte-slice decoders with deterministic
//! partial/failure semantics. A decoder reads a prefix of its input and
//! either makes progress (returning the remaining suffix and an output),
//! reports that more bytes are needed (`Incomplete`), or reports that the
//! input is structurally invalid (`Fail`). Combinators wrap one decoder
//! inside another; none of them knows anything about a concrete grammar.

use vstd::prelude::*;
use vstd::slice::{slice_index_get, slice_subrange};

verus! {

/// The two ways a decode attempt can fail: the input is too short to reach
/// a verdict (buffer and retry with a longer prefix), or the input is
/// structurally invalid (a dead end no further bytes can repair).
#[derive(Debug, Eq, PartialEq, Structural)]
pub enum DecodeError {
    Incomplete,
    Fail,
}

/// Holds when `rem` is the suffix of `input` that a decoder left unread:
/// the consumed part is exactly the first `input.len() - rem.len()` bytes.
pub open spec fn is_remainder_of(rem: Seq<u8>, input: Seq<u8>) -> bool {
    &&& rem.len() <= input.len()
    &&& rem == input.subrange(input.len() - rem.len(), input.len() as int)
}

/// An interface for building decoders operating on a borrowed byte slice.
///
/// Every decoder guarantees monotonic consumption: on progress the
/// remaining bytes are a suffix of the input, so the consumed length is
/// `input.len() - remaining.len()`. Failure produces no output at all, and
/// a decoder holds no mutable state, so retrying with a longer prefix is
/// safe.
pub trait DecodeBytes<'b>: Sized {
    /// The type of value produced by a decoder. It may borrow from the
    /// input slice (lifetime `'b`), which is what allows a decoder to hand
    /// out a sub-slice of its input without copying.
    type Output;

    /// Well-formedness of the decoder itself. For combinators that carry a
    /// caller-supplied function this says the function may be applied to
    /// every value the inner decoder can produce.
    spec fn wf(&self) -> bool;

    /// Decode a sequence of bytes; on progress return the remaining suffix
    /// of the input together with the output.
    fn decode(&self, bytes: &'b [u8]) -> (r: Result<(&'b [u8], Self::Output), DecodeError>)
        requires
            self.wf(),
        ensures
            (r matches Ok(p) ==> is_remainder_of(p.0@, bytes@)),
    ;

    /// Decode, discard the remainder, and return only the output.
    fn decode_(&self, bytes: &'b [u8]) -> (r: Result<Self::Output, DecodeError>)
        requires
            self.wf(),
    {
        match self.decode(bytes) {
            Ok((_, out)) => Ok(out),
            Err(e) => Err(e),
        }
    }

    /// Like `decode_`, but fails unless the input is consumed entirely.
    fn decode_all(&self, bytes: &'b [u8]) -> (r: Result<Self::Output, DecodeError>)
        requires
            self.wf(),
    {
        match self.decode(bytes) {
            Ok((remainder, out)) => {
                if remainder.len() == 0 {
                    Ok(out)
                } else {
                    Err(DecodeError::Fail)
                }
            },
            Err(e) => Err(e),
        }
    }

    /// A decoder that behaves like this one but outputs the number of
    /// bytes consumed.
    fn count_bytes(self) -> (r: BytesConsumed<Self>)
        ensures
            r == (BytesConsumed { src: self }),
    {
        BytesConsumed { src: self }
    }

    /// A decoder whose output is transformed to an `Option`; `None` turns
    /// the success into a structural failure.
    fn filter_map<T, F>(self, f: F) -> (r: FilterMap<Self, F>) where F: Fn(Self::Output) -> Option<
        T,
    >
        ensures
            r == (FilterMap { src: self, f }),
    {
        FilterMap { src: self, f }
    }

    /// A decoder whose output must satisfy a predicate.
    fn filter<F>(self, f: F) -> (r: Filter<Self, F>) where F: Fn(&Self::Output) -> bool
        ensures
            r == (Filter { src: self, f }),
    {
        Filter { src: self, f }
    }

    /// A decoder whose output is transformed by a function.
    fn map<B, F>(self, f: F) -> (r: Mapped<Self, F>) where F: Fn(Self::Output) -> B
        ensures
            r == (Mapped { src: self, f }),
    {
        Mapped { src: self, f }
    }

    /// A decoder that applies a function to the consumed sub-slice.
    fn parse_slice<B, F>(self, f: F) -> (r: ParseSlice<Self, F>) where F: Fn(&'b [u8]) -> B
        ensures
            r == (ParseSlice { src: self, f }),
    {
        ParseSlice { src: self, f }
    }

    /// A decoder whose output is the consumed sub-slice itself.
    fn to_consumed_slice(self) -> (r: ToSlice<Self>)
        ensures
            r == (ToSlice { src: self }),
    {
        ToSlice { src: self }
    }







    /// Repeat until structural failure, discarding outputs.
    fn many_(self) -> (r: Many_<Self>)
        ensures
            r == (Many_ { one: self }),
    {
        Many_ { one: self }
    }

    /// Repeat until structural failure, collecting outputs.
    fn many(self) -> (r: Many<Self>)
        ensures
            r == (Many { one: self }),
    {
        Many { one: self }
    }

    /// Repeat exactly `n` times, collecting outputs.
    fn repeat(self, n: u64) -> (r: Repeat<Self>)
        ensures
            r == (Repeat { one: self, n }),
    {
        Repeat { one: self, n }
    }

    /// Repeat exactly `n` times, discarding outputs.
    fn repeat_(self, n: u64) -> (r: Repeat_<Self>)
        ensures
            r == (Repeat_ { one: self, n }),
    {
        Repeat_ { one: self, n }
    }
}

/// Sequence with a decoder built from the first one's output (monadic
/// bind); keeps the second output. This is what allows "read `n` bytes"
/// to depend on a previously parsed length field.
pub fn and_then<'b, A, B, F>(src: A, f: F) -> (r: FlatMap<A, F>) where
    A: DecodeBytes<'b>,
    B: DecodeBytes<'b>,
    F: Fn(A::Output) -> B,

    ensures
        r == (FlatMap { src, f }),
{
    FlatMap { src, f }
}

/// Sequence with a decoder built from a borrow of the first one's output;
/// keeps the first output.
pub fn and_then_<'b, A, B, F>(src: A, f: F) -> (r: FlatMap_<A, F>) where
    A: DecodeBytes<'b>,
    B: DecodeBytes<'b>,
    F: Fn(&A::Output) -> B,

    ensures
        r == (FlatMap_ { src, f }),
{
    FlatMap_ { src, f }
}

/// Sequence two decoders; keep the second output.
pub fn and<'b, A: DecodeBytes<'b>, B: DecodeBytes<'b>>(fst: A, snd: B) -> (r: AndNext<A, B>)
    ensures
        r == (AndNext { fst, snd }),
{
    AndNext { fst, snd }
}

/// Sequence two decoders; keep the first output.
pub fn and_<'b, A: DecodeBytes<'b>, B: DecodeBytes<'b>>(fst: A, snd: B) -> (r: AndNext_<A, B>)
    ensures
        r == (AndNext_ { fst, snd }),
{
    AndNext_ { fst, snd }
}

/// Try the first decoder; on a structural failure (never on `Incomplete`)
/// try the second.
pub fn or<'b, A, B>(a: A, b: B) -> (r: Alternative<A, B>) where
    A: DecodeBytes<'b>,
    B: DecodeBytes<'b>,

    ensures
        r == (Alternative { a, b }),
{
    Alternative { a, b }
}

/// Like `or`, building the alternative lazily.
pub fn or_else<'b, A, B, F>(a: A, f: F) -> (r: OrElse<A, F>) where
    A: DecodeBytes<'b>,
    B: DecodeBytes<'b>,
    F: Fn() -> B,

    ensures
        r == (OrElse { a, f }),
{
    OrElse { a, f }
}

/// A whole input is a remainder of itself (nothing consumed yet).
pub proof fn lemma_remainder_refl(s: Seq<u8>)
    ensures
        is_remainder_of(s, s),
{
    assert(s =~= s.subrange(0, s.len() as int));
}

/// Being a remainder is transitive: what a second decoder leaves of the
/// first decoder's remainder is also a remainder of the whole input.
pub proof fn lemma_remainder_trans(a: Seq<u8>, b: Seq<u8>, c: Seq<u8>)
    requires
        is_remainder_of(b, a),
        is_remainder_of(c, b),
    ensures
        is_remainder_of(c, a),
{
    assert(c =~= a.subrange(a.len() - c.len(), a.len() as int));
}

/// Byte-for-byte equality of two slices.
pub fn slice_eq(a: &[u8], b: &[u8]) -> (r: bool)
    ensures
        r == (a@ == b@),
{
    if a.len() != b.len() {
        assert(a@.len() != b@.len());
        return false;
    }
    let n = a.len();
    let mut i: usize = 0;
    while i < n
        invariant
            i <= n,
            n == a@.len() == b@.len(),
            forall|j: int| 0 <= j < i ==> a@[j] == b@[j],
        decreases n - i,
    {
        if *slice_index_get(a, i) != *slice_index_get(b, i) {
            return false;
        }
        i = i + 1;
    }
    assert(a@ =~= b@);
    true
}

/// Holds when `out` is a possible result of `f` on some input.
pub open spec fn some_input_yields<A, B, F: Fn(A) -> B>(f: F, out: B) -> bool {
    exists|x: A| call_ensures(f, (x,), out)
}

/// Holds when `out` is a possible result of `f` on some slice whose
/// contents are `prefix`.
pub open spec fn slice_parse_yields<'a, B, F: Fn(&'a [u8]) -> B>(
    f: F,
    prefix: Seq<u8>,
    out: B,
) -> bool {
    exists|s: &'a [u8]| s@ == prefix && call_ensures(f, (s,), out)
}

/// Reports the number of bytes its inner decoder consumed, discarding the
/// inner output. Accepts and rejects exactly as the inner decoder does.
pub struct BytesConsumed<D> {
    pub src: D,
}

impl<'b, D: DecodeBytes<'b>> DecodeBytes<'b> for BytesConsumed<D> {
    type Output = usize;

    open spec fn wf(&self) -> bool {
        self.src.wf()
    }

    fn decode(&self, bytes: &'b [u8]) -> (r: Result<(&'b [u8], usize), DecodeError>)
        ensures
            r matches Ok(p) ==> p.1 == bytes@.len() - p.0@.len(),
    {
        let total_len = bytes.len();
        match self.src.decode(bytes) {
            Ok((remainder, _)) => Ok((remainder, total_len - remainder.len())),
            Err(e) => Err(e),
        }
    }
}

/// Reports the exact sub-slice its inner decoder consumed, discarding the
/// inner output; this is what enables zero-copy extraction.
pub struct ToSlice<D> {
    pub src: D,
}

impl<'b, D: DecodeBytes<'b>> DecodeBytes<'b> for ToSlice<D> {
    type Output = &'b [u8];

    open spec fn wf(&self) -> bool {
        self.src.wf()
    }

    fn decode(&self, bytes: &'b [u8]) -> (r: Result<(&'b [u8], &'b [u8]), DecodeError>)
        ensures
            r matches Ok(p) ==> p.1@ == bytes@.subrange(0, bytes@.len() - p.0@.len()),
    {
        let total_len = bytes.len();
        match self.src.decode(bytes) {
            Ok((remainder, _)) => {
                let consumed = total_len - remainder.len();
                Ok((remainder, slice_subrange(bytes, 0, consumed)))
            },
            Err(e) => Err(e),
        }
    }
}

/// Transforms the inner decoder's output with a function; consumption is
/// unchanged.
pub struct Mapped<D, F> {
    pub src: D,
    pub f: F,
}

impl<'b, B, D: DecodeBytes<'b>, F> DecodeBytes<'b> for Mapped<D, F> where F: Fn(D::Output) -> B {
    type Output = B;

    open spec fn wf(&self) -> bool {
        &&& self.src.wf()
        &&& forall|x: D::Output| call_requires(self.f, (x,))
    }

    fn decode(&self, bytes: &'b [u8]) -> (r: Result<(&'b [u8], B), DecodeError>)
        ensures
            r matches Ok(p) ==> some_input_yields(self.f, p.1),
    {
        match self.src.decode(bytes) {
            Ok((remainder, x)) => {
                let ghost gx = x;
                let y = (self.f)(x);
                proof {
                    assert(call_ensures(self.f, (gx,), y));
                    assert(some_input_yields(self.f, y));
                }
                Ok((remainder, y))
            },
            Err(e) => Err(e),
        }
    }
}

/// Keeps the inner decoder's output only when a predicate accepts it;
/// otherwise the decode becomes a structural failure.
pub struct Filter<D, F> {
    pub src: D,
    pub f: F,
}

impl<'b, D, F> DecodeBytes<'b> for Filter<D, F> where
    D: DecodeBytes<'b>,
    F: Fn(&D::Output) -> bool,
 {
    type Output = D::Output;

    open spec fn wf(&self) -> bool {
        &&& self.src.wf()
        &&& forall|x: D::Output| call_requires(self.f, (&x,))
    }

    fn decode(&self, bytes: &'b [u8]) -> (r: Result<(&'b [u8], D::Output), DecodeError>)
        ensures
            r matches Ok(p) ==> call_ensures(self.f, (&p.1,), true),
    {
        match self.src.decode(bytes) {
            Ok((remainder, x)) => {
                if (self.f)(&x) {
                    Ok((remainder, x))
                } else {
                    Err(DecodeError::Fail)
                }
            },
            Err(e) => Err(e),
        }
    }
}

/// Transforms the inner decoder's output to an `Option`; `None` converts
/// the success into a structural failure.
pub struct FilterMap<D, F> {
    pub src: D,
    pub f: F,
}

impl<'b, T, D, F> DecodeBytes<'b> for FilterMap<D, F> where
    D: DecodeBytes<'b>,
    F: Fn(D::Output) -> Option<T>,
 {
    type Output = T;

    open spec fn wf(&self) -> bool {
        &&& self.src.wf()
        &&& forall|x: D::Output| call_requires(self.f, (x,))
    }

    fn decode(&self, bytes: &'b [u8]) -> (r: Result<(&'b [u8], T), DecodeError>)
        ensures
            r matches Ok(p) ==> some_input_yields(self.f, Some(p.1)),
    {
        match self.src.decode(bytes) {
            Ok((remainder, x)) => {
                let ghost gx = x;
                match (self.f)(x) {
                    Some(y) => {
                        proof {
                            assert(call_ensures(self.f, (gx,), Some(y)));
                            assert(some_input_yields(self.f, Some(y)));
                        }
                        Ok((remainder, y))
                    },
                    None => Err(DecodeError::Fail),
                }
            },
            Err(e) => Err(e),
        }
    }
}

/// Applies a function to the exact sub-slice the inner decoder consumed,
/// discarding the inner output.
pub struct ParseSlice<D, F> {
    pub src: D,
    pub f: F,
}

impl<'b, B, D: DecodeBytes<'b>, F> DecodeBytes<'b> for ParseSlice<D, F> where
    F: Fn(&'b [u8]) -> B,
 {
    type Output = B;

    open spec fn wf(&self) -> bool {
        &&& self.src.wf()
        &&& forall|s: &[u8]| call_requires(self.f, (s,))
    }

    fn decode(&self, bytes: &'b [u8]) -> (r: Result<(&'b [u8], B), DecodeError>)
        ensures
            r matches Ok(p) ==> slice_parse_yields(
                self.f,
                bytes@.subrange(0, bytes@.len() - p.0@.len()),
                p.1,
            ),
    {
        let total_len = bytes.len();
        match self.src.decode(bytes) {
            Ok((remainder, _)) => {
                let consumed = total_len - remainder.len();
                let slice = slice_subrange(bytes, 0, consumed);
                let y = (self.f)(slice);
                proof {
                    assert(slice@ == bytes@.subrange(0, bytes@.len() - remainder@.len())
                        && call_ensures(self.f, (slice,), y));
                    assert(slice_parse_yields(
                        self.f,
                        bytes@.subrange(0, bytes@.len() - remainder@.len()),
                        y,
                    ));
                }
                Ok((remainder, y))
            },
            Err(e) => Err(e),
        }
    }
}

/// Runs a second decoder on the first decoder's remainder, letting the
/// second depend on the first's output; keeps the second output. This is
/// the monadic bind: it is what allows "read `n` bytes" to depend on a
/// previously parsed length field.
pub struct FlatMap<D, F> {
    pub src: D,
    pub f: F,
}

impl<'b, B: DecodeBytes<'b>, D: DecodeBytes<'b>, F> DecodeBytes<'b> for FlatMap<D, F> where
    F: Fn(D::Output) -> B,
 {
    type Output = B::Output;

    open spec fn wf(&self) -> bool {
        &&& self.src.wf()
        &&& forall|x: D::Output| call_requires(self.f, (x,))
        &&& forall|x: D::Output, d: B| call_ensures(self.f, (x,), d) ==> d.wf()
    }

    fn decode(&self, bytes: &'b [u8]) -> (r: Result<(&'b [u8], B::Output), DecodeError>) {
        match self.src.decode(bytes) {
            Ok((remainder, x)) => {
                let next = (self.f)(x);
                match next.decode(remainder) {
                    Ok((next_remainder, o)) => {
                        proof {
                            lemma_remainder_trans(bytes@, remainder@, next_remainder@);
                        }
                        Ok((next_remainder, o))
                    },
                    Err(e) => Err(e),
                }
            },
            Err(e) => Err(e),
        }
    }
}

/// Runs a second decoder, derived from a borrow of the first decoder's
/// output, on the first decoder's remainder; keeps the first output.
#[allow(non_camel_case_types)]
pub struct FlatMap_<D, F> {
    pub src: D,
    pub f: F,
}

impl<'b, B: DecodeBytes<'b>, D: DecodeBytes<'b>, F> DecodeBytes<'b> for FlatMap_<D, F> where
    F: Fn(&D::Output) -> B,
 {
    type Output = D::Output;

    open spec fn wf(&self) -> bool {
        &&& self.src.wf()
        &&& forall|x: D::Output| call_requires(self.f, (&x,))
        &&& forall|x: D::Output, d: B| call_ensures(self.f, (&x,), d) ==> d.wf()
    }

    fn decode(&self, bytes: &'b [u8]) -> (r: Result<(&'b [u8], D::Output), DecodeError>) {
        match self.src.decode(bytes) {
            Ok((remainder, x)) => {
                let next = (self.f)(&x);
                match next.decode(remainder) {
                    Ok((next_remainder, _)) => {
                        proof {
                            lemma_remainder_trans(bytes@, remainder@, next_remainder@);
                        }
                        Ok((next_remainder, x))
                    },
                    Err(e) => Err(e),
                }
            },
            Err(e) => Err(e),
        }
    }
}

/// Sequences two decoders; keeps the second output.
pub struct AndNext<A, B> {
    pub fst: A,
    pub snd: B,
}

impl<'b, A: DecodeBytes<'b>, B: DecodeBytes<'b>> DecodeBytes<'b> for AndNext<A, B> {
    type Output = B::Output;

    open spec fn wf(&self) -> bool {
        self.fst.wf() && self.snd.wf()
    }

    fn decode(&self, bytes: &'b [u8]) -> (r: Result<(&'b [u8], B::Output), DecodeError>) {
        match self.fst.decode(bytes) {
            Ok((remainder, _)) => match self.snd.decode(remainder) {
                Ok((next_remainder, o)) => {
                    proof {
                        lemma_remainder_trans(bytes@, remainder@, next_remainder@);
                    }
                    Ok((next_remainder, o))
                },
                Err(e) => Err(e),
            },
            Err(e) => Err(e),
        }
    }
}

/// Sequences two decoders; keeps the first output.
#[allow(non_camel_case_types)]
pub struct AndNext_<A, B> {
    pub fst: A,
    pub snd: B,
}

impl<'b, A: DecodeBytes<'b>, B: DecodeBytes<'b>> DecodeBytes<'b> for AndNext_<A, B> {
    type Output = A::Output;

    open spec fn wf(&self) -> bool {
        self.fst.wf() && self.snd.wf()
    }

    fn decode(&self, bytes: &'b [u8]) -> (r: Result<(&'b [u8], A::Output), DecodeError>) {
        match self.fst.decode(bytes) {
            Ok((remainder, fst_x)) => match self.snd.decode(remainder) {
                Ok((next_remainder, _)) => {
                    proof {
                        lemma_remainder_trans(bytes@, remainder@, next_remainder@);
                    }
                    Ok((next_remainder, fst_x))
                },
                Err(e) => Err(e),
            },
            Err(e) => Err(e),
        }
    }
}

/// Tries the first decoder; only a structural failure (never `Incomplete`,
/// which more bytes may still resolve) falls through to the second.
pub struct Alternative<A, B> {
    pub a: A,
    pub b: B,
}

impl<'b, A, B> DecodeBytes<'b> for Alternative<A, B> where
    A: DecodeBytes<'b>,
    B: DecodeBytes<'b, Output = A::Output>,
 {
    type Output = A::Output;

    open spec fn wf(&self) -> bool {
        self.a.wf() && self.b.wf()
    }

    fn decode(&self, bytes: &'b [u8]) -> (r: Result<(&'b [u8], A::Output), DecodeError>) {
        match self.a.decode(bytes) {
            Ok(p) => Ok(p),
            Err(DecodeError::Incomplete) => Err(DecodeError::Incomplete),
            Err(DecodeError::Fail) => self.b.decode(bytes),
        }
    }
}

/// Like `Alternative`, but the second decoder is built lazily, only when
/// the first fails structurally.
pub struct OrElse<A, F> {
    pub a: A,
    pub f: F,
}

impl<'b, A, B, F> DecodeBytes<'b> for OrElse<A, F> where
    A: DecodeBytes<'b>,
    B: DecodeBytes<'b, Output = A::Output>,
    F: Fn() -> B,
 {
    type Output = A::Output;

    open spec fn wf(&self) -> bool {
        &&& self.a.wf()
        &&& call_requires(self.f, ())
        &&& forall|d: B| call_ensures(self.f, (), d) ==> d.wf()
    }

    fn decode(&self, bytes: &'b [u8]) -> (r: Result<(&'b [u8], A::Output), DecodeError>) {
        match self.a.decode(bytes) {
            Ok(p) => Ok(p),
            Err(DecodeError::Incomplete) => Err(DecodeError::Incomplete),
            Err(DecodeError::Fail) => {
                let alt = (self.f)();
                alt.decode(bytes)
            },
        }
    }
}

/// Repeats a decoder until it fails structurally, discarding outputs and
/// reporting only the final remainder. `Incomplete` from the inner decoder
/// propagates unchanged. An inner decoder that succeeds while consuming
/// nothing would repeat forever; such progress is rejected as a structural
/// failure instead.
#[allow(non_camel_case_types)]
pub struct Many_<D> {
    pub one: D,
}

impl<'b, D: DecodeBytes<'b>> DecodeBytes<'b> for Many_<D> {
    type Output = ();

    open spec fn wf(&self) -> bool {
        self.one.wf()
    }

    fn decode(&self, bytes: &'b [u8]) -> (r: Result<(&'b [u8], ()), DecodeError>) {
        let mut cur: &'b [u8] = bytes;
        proof {
            lemma_remainder_refl(bytes@);
        }
        loop
            invariant
                self.wf(),
                is_remainder_of(cur@, bytes@),
            decreases cur@.len(),
        {
            match self.one.decode(cur) {
                Ok((remainder, _)) => {
                    if remainder.len() < cur.len() {
                        proof {
                            lemma_remainder_trans(bytes@, cur@, remainder@);
                        }
                        cur = remainder;
                    } else {
                        return Err(DecodeError::Fail);
                    }
                },
                Err(DecodeError::Incomplete) => {
                    return Err(DecodeError::Incomplete);
                },
                Err(DecodeError::Fail) => {
                    return Ok((cur, ()));
                },
            }
        }
    }
}

/// Repeats a decoder until it fails structurally, collecting the outputs.
/// Zero-width progress is rejected exactly as in `Many_`.
pub struct Many<D> {
    pub one: D,
}

impl<'b, D: DecodeBytes<'b>> DecodeBytes<'b> for Many<D> {
    type Output = Vec<D::Output>;

    open spec fn wf(&self) -> bool {
        self.one.wf()
    }

    fn decode(&self, bytes: &'b [u8]) -> (r: Result<(&'b [u8], Vec<D::Output>), DecodeError>) {
        let mut results: Vec<D::Output> = Vec::new();
        let mut cur: &'b [u8] = bytes;
        proof {
            lemma_remainder_refl(bytes@);
        }
        loop
            invariant
                self.wf(),
                is_remainder_of(cur@, bytes@),
            decreases cur@.len(),
        {
            match self.one.decode(cur) {
                Ok((remainder, v)) => {
                    if remainder.len() < cur.len() {
                        proof {
                            lemma_remainder_trans(bytes@, cur@, remainder@);
                        }
                        results.push(v);
                        cur = remainder;
                    } else {
                        return Err(DecodeError::Fail);
                    }
                },
                Err(DecodeError::Incomplete) => {
                    return Err(DecodeError::Incomplete);
                },
                Err(DecodeError::Fail) => {
                    return Ok((cur, results));
                },
            }
        }
    }
}

/// Repeats a decoder exactly `n` times, collecting the outputs. Any inner
/// failure before the `n`-th success propagates: `Incomplete` unchanged,
/// and a structural failure as `Fail`; one repetition fewer than `n` is
/// never a partial success.
pub struct Repeat<D> {
    pub one: D,
    pub n: u64,
}

impl<'b, D: DecodeBytes<'b>> DecodeBytes<'b> for Repeat<D> {
    type Output = Vec<D::Output>;

    open spec fn wf(&self) -> bool {
        self.one.wf()
    }

    fn decode(&self, bytes: &'b [u8]) -> (r: Result<(&'b [u8], Vec<D::Output>), DecodeError>)
        ensures
            r matches Ok(p) ==> p.1@.len() == self.n,
    {
        let mut results: Vec<D::Output> = Vec::new();
        let mut cur: &'b [u8] = bytes;
        let mut i: u64 = 0;
        proof {
            lemma_remainder_refl(bytes@);
        }
        while i < self.n
            invariant
                self.wf(),
                i <= self.n,
                results@.len() == i,
                is_remainder_of(cur@, bytes@),
            decreases self.n - i,
        {
            match self.one.decode(cur) {
                Ok((remainder, v)) => {
                    proof {
                        lemma_remainder_trans(bytes@, cur@, remainder@);
                    }
                    results.push(v);
                    cur = remainder;
                },
                Err(DecodeError::Incomplete) => {
                    return Err(DecodeError::Incomplete);
                },
                Err(DecodeError::Fail) => {
                    return Err(DecodeError::Fail);
                },
            }
            i = i + 1;
        }
        Ok((cur, results))
    }
}

/// Repeats a decoder exactly `n` times, discarding the outputs; failures
/// propagate as in `Repeat`.
#[allow(non_camel_case_types)]
pub struct Repeat_<D> {
    pub one: D,
    pub n: u64,
}

impl<'b, D: DecodeBytes<'b>> DecodeBytes<'b> for Repeat_<D> {
    type Output = ();

    open spec fn wf(&self) -> bool {
        self.one.wf()
    }

    fn decode(&self, bytes: &'b [u8]) -> (r: Result<(&'b [u8], ()), DecodeError>) {
        let mut cur: &'b [u8] = bytes;
        let mut i: u64 = 0;
        proof {
            lemma_remainder_refl(bytes@);
        }
        while i < self.n
            invariant
                self.wf(),
                i <= self.n,
                is_remainder_of(cur@, bytes@),
            decreases self.n - i,
        {
            match self.one.decode(cur) {
                Ok((remainder, _)) => {
                    proof {
                        lemma_remainder_trans(bytes@, cur@, remainder@);
                    }
                    cur = remainder;
                },
                Err(DecodeError::Incomplete) => {
                    return Err(DecodeError::Incomplete);
                },
                Err(DecodeError::Fail) => {
                    return Err(DecodeError::Fail);
                },
            }
            i = i + 1;
        }
        Ok((cur, ()))
    }
}

/// Matches one given byte at the head of the input.
pub struct ExpectByte(pub u8);

/// The decoder that accepts exactly the byte `byte`.
pub fn match_byte(byte: u8) -> (r: ExpectByte)
    ensures
        r == ExpectByte(byte),
{
    ExpectByte(byte)
}

impl<'b> DecodeBytes<'b> for ExpectByte {
    type Output = u8;

    open spec fn wf(&self) -> bool {
        true
    }

    fn decode(&self, bytes: &'b [u8]) -> (r: Result<(&'b [u8], u8), DecodeError>)
        ensures
            bytes@.len() == 0 ==> r == Err::<(&'b [u8], u8), DecodeError>(DecodeError::Incomplete),
            bytes@.len() > 0 && bytes@[0] == self.0 ==> (r matches Ok(p) && p.0@ == bytes@.skip(1)
                && p.1 == self.0),
            bytes@.len() > 0 && bytes@[0] != self.0 ==> r == Err::<(&'b [u8], u8), DecodeError>(
                DecodeError::Fail,
            ),
    {
        if bytes.len() == 0 {
            return Err(DecodeError::Incomplete);
        }
        if *slice_index_get(bytes, 0) == self.0 {
            let rem = slice_subrange(bytes, 1, bytes.len());
            assert(rem@ == bytes@.skip(1));
            Ok((rem, self.0))
        } else {
            Err(DecodeError::Fail)
        }
    }
}

/// Matches a given byte string at the head of the input.
pub struct ExpectBytes {
    pub bytes: &'static [u8],
}

/// The decoder that accepts exactly the byte string `bytes`.
pub fn match_bytes(bytes: &'static [u8]) -> (r: ExpectBytes)
    ensures
        r == (ExpectBytes { bytes }),
{
    ExpectBytes { bytes }
}

impl<'b> DecodeBytes<'b> for ExpectBytes {
    type Output = &'static [u8];

    open spec fn wf(&self) -> bool {
        true
    }

    fn decode(&self, bytes: &'b [u8]) -> (r: Result<(&'b [u8], &'static [u8]), DecodeError>)
        ensures
            bytes@.len() < self.bytes@.len() ==> r == Err::<(&'b [u8], &'static [u8]), DecodeError>(
                DecodeError::Incomplete,
            ),
            bytes@.len() >= self.bytes@.len() && bytes@.subrange(0, self.bytes@.len() as int)
                == self.bytes@ ==> (r matches Ok(p) && p.0@ == bytes@.skip(self.bytes@.len() as int)
                && p.1@ == self.bytes@),
            bytes@.len() >= self.bytes@.len() && bytes@.subrange(0, self.bytes@.len() as int)
                != self.bytes@ ==> r == Err::<(&'b [u8], &'static [u8]), DecodeError>(
                DecodeError::Fail,
            ),
    {
        let expected_len = self.bytes.len();
        if bytes.len() < expected_len {
            return Err(DecodeError::Incomplete);
        }
        let head = slice_subrange(bytes, 0, expected_len);
        if slice_eq(head, self.bytes) {
            let rem = slice_subrange(bytes, expected_len, bytes.len());
            assert(rem@ == bytes@.skip(self.bytes@.len() as int));
            Ok((rem, self.bytes))
        } else {
            Err(DecodeError::Fail)
        }
    }
}

/// Accepts one byte that is neither CR nor LF; used for scanning length
/// fields safely up to a line terminator.
#[allow(non_camel_case_types)]
pub struct line_safe_byte;

impl<'b> DecodeBytes<'b> for line_safe_byte {
    type Output = ();

    open spec fn wf(&self) -> bool {
        true
    }

    fn decode(&self, bytes: &'b [u8]) -> (r: Result<(&'b [u8], ()), DecodeError>)
        ensures
            bytes@.len() == 0 ==> r == Err::<(&'b [u8], ()), DecodeError>(DecodeError::Incomplete),
            bytes@.len() > 0 && (bytes@[0] == 13 || bytes@[0] == 10) ==> r == Err::<
                (&'b [u8], ()),
                DecodeError,
            >(DecodeError::Fail),
            bytes@.len() > 0 && bytes@[0] != 13 && bytes@[0] != 10 ==> (r matches Ok(p) && p.0@
                == bytes@.skip(1)),
    {
        if bytes.len() == 0 {
            return Err(DecodeError::Incomplete);
        }
        let b = *slice_index_get(bytes, 0);
        if b == 13 || b == 10 {
            Err(DecodeError::Fail)
        } else {
            let rem = slice_subrange(bytes, 1, bytes.len());
            assert(rem@ == bytes@.skip(1));
            Ok((rem, ()))
        }
    }
}

/// Accepts any single byte.
#[allow(non_camel_case_types)]
pub struct any_byte;

impl<'b> DecodeBytes<'b> for any_byte {
    type Output = u8;

    open spec fn wf(&self) -> bool {
        true
    }

    fn decode(&self, bytes: &'b [u8]) -> (r: Result<(&'b [u8], u8), DecodeError>)
        ensures
            bytes@.len() == 0 ==> r == Err::<(&'b [u8], u8), DecodeError>(DecodeError::Incomplete),
            bytes@.len() > 0 ==> (r matches Ok(p) && p.0@ == bytes@.skip(1) && p.1 == bytes@[0]),
    {
        if bytes.len() == 0 {
            return Err(DecodeError::Incomplete);
        }
        let b = *slice_index_get(bytes, 0);
        let rem = slice_subrange(bytes, 1, bytes.len());
        assert(rem@ == bytes@.skip(1));
        Ok((rem, b))
    }
}

/// The output type of decoders that never make progress. Their contracts
/// guarantee that no value of it is ever produced.
pub enum Never {
    Unreachable,
}

/// The decoder that rejects every input as malformed.
#[allow(non_camel_case_types)]
pub struct fail;

impl<'b> DecodeBytes<'b> for fail {
    type Output = Never;

    open spec fn wf(&self) -> bool {
        true
    }

    fn decode(&self, _bytes: &'b [u8]) -> (r: Result<(&'b [u8], Never), DecodeError>)
        ensures
            r == Err::<(&'b [u8], Never), DecodeError>(DecodeError::Fail),
    {
        Err(DecodeError::Fail)
    }
}

/// The decoder that always asks for more input.
pub struct Halt;

impl<'b> DecodeBytes<'b> for Halt {
    type Output = Never;

    open spec fn wf(&self) -> bool {
        true
    }

    fn decode(&self, _bytes: &'b [u8]) -> (r: Result<(&'b [u8], Never), DecodeError>)
        ensures
            r == Err::<(&'b [u8], Never), DecodeError>(DecodeError::Incomplete),
    {
        Err(DecodeError::Incomplete)
    }
}

} // verus!
