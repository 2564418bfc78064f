//! The typed result of decoding a request frame: an argument list
//! specialized for the common small arities (no heap allocation for zero
//! to three arguments), and the command union built from such a list.

use crate::arena::{
    bytes_as_slice, bytes_clone, bytes_mut_extend, bytes_mut_freeze, bytes_mut_len,
    bytes_mut_view, bytes_mut_with_capacity, bytes_slice, bytes_view,
};
use bytes::Bytes;
use vstd::prelude::*;
use vstd::slice::slice_index_get;

verus! {

/// The bytes of the read keyword, "GET".
pub open spec fn kw_get() -> Seq<u8> {
    seq![71u8, 69u8, 84u8]
}

/// The bytes of the write keyword, "SET".
pub open spec fn kw_set() -> Seq<u8> {
    seq![83u8, 69u8, 84u8]
}

/// The bytes of the removal keyword, "DEL".
pub open spec fn kw_del() -> Seq<u8> {
    seq![68u8, 69u8, 76u8]
}

/// Case-sensitive exact match of a slice against a three-byte keyword.
pub(crate) fn keyword_is(s: &[u8], a: u8, b: u8, c: u8) -> (r: bool)
    ensures
        r == (s@ == seq![a, b, c]),
{
    if s.len() != 3 {
        proof {
            assert(seq![a, b, c].len() == 3);
        }
        return false;
    }
    let r = *slice_index_get(s, 0) == a && *slice_index_get(s, 1) == b && *slice_index_get(s, 2)
        == c;
    proof {
        if r {
            assert(s@ =~= seq![a, b, c]);
        } else {
            if s@ == seq![a, b, c] {
                assert(s@[0] == a && s@[1] == b && s@[2] == c);
            }
        }
    }
    r
}

/// A supported operation, produced only from a well-formed argument list
/// whose first element matches a known keyword with the right arity.
#[derive(Debug)]
pub enum Cmd<T> {
    SET { key: T, value: T },
    GET { key: T },
    DEL { keys: Arguments<T> },
}

/// An ordered sequence of arguments. Command frames are overwhelmingly one
/// to three arguments, so those arities are held inline without heap
/// allocation; only four or more arguments spill into a vector.
#[derive(Debug)]
pub enum Arguments<Arg> {
    NoArgs,
    One(Arg),
    Two((Arg, Arg)),
    Three((Arg, Arg, Arg)),
    More(Vec<Arg>),
}

impl<Arg> View for Arguments<Arg> {
    type V = Seq<Arg>;

    open spec fn view(&self) -> Seq<Arg> {
        match self {
            Arguments::NoArgs => Seq::empty(),
            Arguments::One(a) => seq![*a],
            Arguments::Two(p) => seq![p.0, p.1],
            Arguments::Three(t) => seq![t.0, t.1, t.2],
            Arguments::More(xs) => xs@,
        }
    }
}

impl<Arg> Arguments<Arg> {
    /// The variant tag agrees with the element count: the spilled form is
    /// only ever reached by appending to a full inline form.
    pub open spec fn wf(&self) -> bool {
        self matches Arguments::More(xs) ==> xs@.len() >= 4
    }

    /// A borrowing cursor over the arguments, starting at the first.
    pub fn iter(&self) -> (r: ArgumentsIter<Arg>)
        ensures
            r.args == self,
            r.index == 0,
    {
        ArgumentsIter { args: self, index: 0 }
    }

    /// The first argument, in constant time for every variant.
    pub fn first(&self) -> (r: Option<&Arg>)
        ensures
            self@.len() == 0 ==> r is None,
            self@.len() > 0 ==> (r matches Some(a) && *a == self@[0]),
    {
        match self {
            Arguments::NoArgs => None,
            Arguments::One(arg) => Some(arg),
            Arguments::Two(p) => Some(&p.0),
            Arguments::Three(t) => Some(&t.0),
            Arguments::More(xs) => {
                if xs.len() > 0 {
                    Some(&xs[0])
                } else {
                    None
                }
            },
        }
    }

    /// Apply a function to each argument, keeping the arity shape.
    pub fn map<T, F: Fn(&Arg) -> T>(&self, f: F) -> (r: Arguments<T>)
        requires
            forall|x: Arg| call_requires(f, (&x,)),
        ensures
            r@.len() == self@.len(),
            forall|i: int|
                0 <= i < self@.len() ==> call_ensures(f, (&self@[i],), #[trigger] r@[i]),
            self.wf() ==> r.wf(),
    {
        match self {
            Arguments::NoArgs => Arguments::NoArgs,
            Arguments::One(arg) => Arguments::One(f(arg)),
            Arguments::Two(p) => Arguments::Two((f(&p.0), f(&p.1))),
            Arguments::Three(t) => Arguments::Three((f(&t.0), f(&t.1), f(&t.2))),
            Arguments::More(xs) => {
                let mut ys: Vec<T> = Vec::new();
                let n = xs.len();
                let mut j: usize = 0;
                while j < n
                    invariant
                        j <= n,
                        n == xs@.len(),
                        ys@.len() == j,
                        forall|x: Arg| call_requires(f, (&x,)),
                        forall|i: int|
                            0 <= i < j ==> call_ensures(f, (&xs@[i],), #[trigger] ys@[i]),
                    decreases n - j,
                {
                    ys.push(f(&xs[j]));
                    j = j + 1;
                }
                Arguments::More(ys)
            },
        }
    }

    /// How many arguments are held.
    pub fn n_args(&self) -> (r: usize)
        ensures
            r == self@.len(),
    {
        match self {
            Arguments::NoArgs => 0,
            Arguments::One(_) => 1,
            Arguments::Two(_) => 2,
            Arguments::Three(_) => 3,
            Arguments::More(xs) => xs.len(),
        }
    }

    /// Append in place; the list grows by exactly the given argument.
    pub fn push(&mut self, arg: Arg)
        ensures
            final (self)@ == old(self)@.push(arg),
            old(self).wf() ==> final (self).wf(),
    {
        let mut this = Arguments::NoArgs;
        core::mem::swap(self, &mut this);
        let this = Self::append(this, arg);
        *self = this;
    }

    /// Append, consuming the list: the inline arities fill up one by one,
    /// and a full inline form spills into the vector form for good.
    pub fn append(self, arg: Arg) -> (r: Self)
        ensures
            r@ == self@.push(arg),
            self matches Arguments::Three(_) ==> r matches Arguments::More(_),
            self matches Arguments::More(_) ==> r matches Arguments::More(_),
            self.wf() ==> r.wf(),
    {
        let r = match self {
            Arguments::NoArgs => Arguments::One(arg),
            Arguments::One(arg0) => Arguments::Two((arg0, arg)),
            Arguments::Two(p) => {
                let (arg0, arg1) = p;
                Arguments::Three((arg0, arg1, arg))
            },
            Arguments::Three(t) => {
                let (arg0, arg1, arg2) = t;
                let mut xs: Vec<Arg> = Vec::new();
                xs.push(arg0);
                xs.push(arg1);
                xs.push(arg2);
                xs.push(arg);
                Arguments::More(xs)
            },
            Arguments::More(mut xs) => {
                xs.push(arg);
                Arguments::More(xs)
            },
        };
        proof {
            assert(r@ =~= self@.push(arg));
        }
        r
    }
}

/// The total length in bytes of the first `k` borrowed slices.
pub open spec fn bytes_len_sum(s: Seq<&[u8]>, k: int) -> int
    decreases k,
{
    if k <= 0 {
        0
    } else {
        bytes_len_sum(s, k - 1) + s[k - 1]@.len()
    }
}

/// Appending a slice leaves the earlier partial totals alone.
pub(crate) proof fn lemma_bytes_len_sum_push(s: Seq<&[u8]>, x: &[u8], k: int)
    requires
        0 <= k <= s.len(),
    ensures
        bytes_len_sum(s.push(x), k) == bytes_len_sum(s, k),
    decreases k,
{
    if k > 0 {
        lemma_bytes_len_sum_push(s, x, k - 1);
    }
}

/// The partial byte totals grow with the number of slices counted.
proof fn lemma_bytes_len_sum_mono(s: Seq<&[u8]>, k1: int, k2: int)
    requires
        0 <= k1 <= k2,
    ensures
        bytes_len_sum(s, k1) <= bytes_len_sum(s, k2),
    decreases k2,
{
    if k1 < k2 {
        lemma_bytes_len_sum_mono(s, k1, k2 - 1);
    }
}

impl<'a> Arguments<&'a [u8]> {
    /// The total length in bytes of all arguments.
    pub fn n_bytes(&self) -> (r: usize)
        requires
            bytes_len_sum(self@, self@.len() as int) <= usize::MAX,
        ensures
            r == bytes_len_sum(self@, self@.len() as int),
    {
        let mut it = self.iter();
        let mut sum: usize = 0;
        loop
            invariant
                it.args == self,
                it.index <= self@.len(),
                sum == bytes_len_sum(self@, it.index as int),
                bytes_len_sum(self@, self@.len() as int) <= usize::MAX,
            decreases self@.len() - it.index,
        {
            let ghost old_index = it.index as int;
            match it.next() {
                Some(s) => {
                    proof {
                        lemma_bytes_len_sum_mono(self@, old_index + 1, self@.len() as int);
                    }
                    sum = sum + s.len();
                },
                None => {
                    return sum;
                },
            }
        }
    }

    /// The materializer: copy every borrowed argument, in order, into one
    /// freshly allocated contiguous buffer, then hand each argument back
    /// as a zero-copy sub-view of that single shared buffer. The borrowed
    /// input slices may reference a transient receive buffer; the result
    /// is safe to retain after that buffer is reused.
    pub fn to_bytes(&self) -> (r: Arguments<Bytes>)
        requires
            bytes_len_sum(self@, self@.len() as int) <= usize::MAX,
        ensures
            r@.len() == self@.len(),
            forall|i: int| 0 <= i < self@.len() ==> bytes_view(#[trigger] r@[i]) == self@[i]@,
            r.wf(),
    {
        let n = self.n_bytes();
        let mut buf = bytes_mut_with_capacity(n);
        let mut offsets: Vec<(usize, usize)> = Vec::new();
        let mut it = self.iter();
        loop
            invariant
                it.args == self,
                it.index <= self@.len(),
                offsets@.len() == it.index,
                bytes_mut_view(buf).len() == bytes_len_sum(self@, it.index as int),
                bytes_len_sum(self@, self@.len() as int) <= usize::MAX,
                forall|i: int|
                    0 <= i < it.index ==> {
                        &&& (#[trigger] offsets@[i]).0 <= offsets@[i].1 <= bytes_mut_view(
                            buf,
                        ).len()
                        &&& bytes_mut_view(buf).subrange(
                            offsets@[i].0 as int,
                            offsets@[i].1 as int,
                        ) == self@[i]@
                    },
            ensures
                it.index == self@.len(),
                offsets@.len() == self@.len(),
                forall|i: int|
                    0 <= i < self@.len() ==> {
                        &&& (#[trigger] offsets@[i]).0 <= offsets@[i].1 <= bytes_mut_view(
                            buf,
                        ).len()
                        &&& bytes_mut_view(buf).subrange(
                            offsets@[i].0 as int,
                            offsets@[i].1 as int,
                        ) == self@[i]@
                    },
            decreases self@.len() - it.index,
        {
            let ghost old_index = it.index as int;
            let ghost old_view = bytes_mut_view(buf);
            match it.next() {
                Some(s) => {
                    proof {
                        lemma_bytes_len_sum_mono(self@, old_index + 1, self@.len() as int);
                    }
                    let start = bytes_mut_len(&buf);
                    bytes_mut_extend(&mut buf, s);
                    let end = bytes_mut_len(&buf);
                    offsets.push((start, end));
                    proof {
                        assert forall|i: int| 0 <= i < old_index implies bytes_mut_view(
                            buf,
                        ).subrange(
                            (#[trigger] offsets@[i]).0 as int,
                            offsets@[i].1 as int,
                        ) == self@[i]@ by {
                            assert(bytes_mut_view(buf).subrange(
                                offsets@[i].0 as int,
                                offsets@[i].1 as int,
                            ) =~= old_view.subrange(offsets@[i].0 as int, offsets@[i].1 as int));
                        }
                        assert(bytes_mut_view(buf).subrange(start as int, end as int)
                            =~= self@[old_index]@);
                    }
                },
                None => {
                    break ;
                },
            }
        }
        let arena = bytes_mut_freeze(buf);
        let mut result: Arguments<Bytes> = Arguments::NoArgs;
        let mut j: usize = 0;
        while j < offsets.len()
            invariant
                offsets@.len() == self@.len(),
                j <= offsets@.len(),
                result@.len() == j,
                result.wf(),
                forall|i: int|
                    0 <= i < self@.len() ==> {
                        &&& (#[trigger] offsets@[i]).0 <= offsets@[i].1 <= bytes_view(arena).len()
                        &&& bytes_view(arena).subrange(offsets@[i].0 as int, offsets@[i].1 as int)
                            == self@[i]@
                    },
                forall|i: int| 0 <= i < j ==> bytes_view(#[trigger] result@[i]) == self@[i]@,
            decreases offsets@.len() - j,
        {
            let pair = offsets[j];
            let piece = bytes_slice(&arena, pair.0, pair.1);
            result.push(piece);
            j = j + 1;
        }
        result
    }
}

impl Cmd<Bytes> {
    /// Dispatch a materialized argument list: the first argument must
    /// match a known keyword exactly (case-sensitive), and the argument
    /// count must fit that keyword's arity (a read takes exactly one key,
    /// a write exactly one key and one value, a removal one or more
    /// keys). Anything else is a dispatch failure, reported as `None`.
    pub fn from_args(args: Arguments<Bytes>) -> (r: Option<Cmd<Bytes>>)
        ensures
            r matches Some(c) ==> match c {
                Cmd::GET { key } => args@.len() == 2 && bytes_view(args@[0]) == kw_get()
                    && bytes_view(key) == bytes_view(args@[1]),
                Cmd::SET { key, value } => args@.len() == 3 && bytes_view(args@[0]) == kw_set()
                    && bytes_view(key) == bytes_view(args@[1]) && bytes_view(value) == bytes_view(
                    args@[2],
                ),
                Cmd::DEL { keys } => args@.len() >= 2 && bytes_view(args@[0]) == kw_del()
                    && keys@.len() == args@.len() - 1 && forall|i: int|
                    0 <= i < keys@.len() ==> bytes_view(#[trigger] keys@[i]) == bytes_view(
                        args@[i + 1],
                    ),
            },
            (r is None) <==> !({
                ||| args@.len() == 2 && bytes_view(args@[0]) == kw_get()
                ||| args@.len() == 3 && bytes_view(args@[0]) == kw_set()
                ||| args@.len() >= 2 && bytes_view(args@[0]) == kw_del()
            }),
    {
        match args {
            Arguments::NoArgs => None,
            Arguments::One(_) => None,
            Arguments::Two(p) => {
                let (kw, key) = p;
                if keyword_is(bytes_as_slice(&kw), 71, 69, 84) {
                    Some(Cmd::GET { key })
                } else if keyword_is(bytes_as_slice(&kw), 68, 69, 76) {
                    Some(Cmd::DEL { keys: Arguments::One(key) })
                } else {
                    None
                }
            },
            Arguments::Three(t) => {
                let (kw, key, value) = t;
                if keyword_is(bytes_as_slice(&kw), 83, 69, 84) {
                    Some(Cmd::SET { key, value })
                } else if keyword_is(bytes_as_slice(&kw), 68, 69, 76) {
                    Some(Cmd::DEL { keys: Arguments::Two((key, value)) })
                } else {
                    None
                }
            },
            Arguments::More(xs) => {
                if xs.len() < 2 {
                    return None;
                }
                if keyword_is(bytes_as_slice(&xs[0]), 68, 69, 76) {
                    let mut keys: Arguments<Bytes> = Arguments::NoArgs;
                    let mut j: usize = 1;
                    while j < xs.len()
                        invariant
                            1 <= j <= xs@.len(),
                            keys@.len() == j - 1,
                            forall|i: int|
                                0 <= i < keys@.len() ==> bytes_view(#[trigger] keys@[i])
                                    == bytes_view(xs@[i + 1]),
                        decreases xs@.len() - j,
                    {
                        keys.push(bytes_clone(&xs[j]));
                        j = j + 1;
                    }
                    Some(Cmd::DEL { keys })
                } else if xs.len() == 2 && keyword_is(bytes_as_slice(&xs[0]), 71, 69, 84) {
                    Some(Cmd::GET { key: bytes_clone(&xs[1]) })
                } else if xs.len() == 3 && keyword_is(bytes_as_slice(&xs[0]), 83, 69, 84) {
                    Some(
                        Cmd::SET {
                            key: bytes_clone(&xs[1]),
                            value: bytes_clone(&xs[2]),
                        },
                    )
                } else {
                    None
                }
            },
        }
    }
}

impl<Arg> Default for Arguments<Arg> {
    /// The empty argument list.
    fn default() -> (r: Self)
        ensures
            r@ == Seq::<Arg>::empty(),
            r.wf(),
    {
        Arguments::NoArgs
    }
}

/// A borrowing cursor over an argument list; `next` yields the arguments
/// in order, front to back.
pub struct ArgumentsIter<'a, Arg> {
    pub args: &'a Arguments<Arg>,
    pub index: usize,
}

impl<'a, Arg> ArgumentsIter<'a, Arg> {
    /// The next argument, advancing the cursor, or `None` once every
    /// argument has been yielded.
    pub fn next(&mut self) -> (r: Option<&'a Arg>)
        ensures
            old(self).index < old(self).args@.len() ==> (r matches Some(a) && *a
                == old(self).args@[old(self).index as int] && final (self).index == old(
                self,
            ).index + 1 && final (self).args == old(self).args),
            old(self).index >= old(self).args@.len() ==> r is None && *final (self) == *old(self),
    {
        let index = self.index;
        match self.args {
            Arguments::NoArgs => None,
            Arguments::One(arg) => {
                if index == 0 {
                    self.index = index + 1;
                    Some(arg)
                } else {
                    None
                }
            },
            Arguments::Two(p) => {
                if index == 0 {
                    self.index = index + 1;
                    Some(&p.0)
                } else if index == 1 {
                    self.index = index + 1;
                    Some(&p.1)
                } else {
                    None
                }
            },
            Arguments::Three(t) => {
                if index == 0 {
                    self.index = index + 1;
                    Some(&t.0)
                } else if index == 1 {
                    self.index = index + 1;
                    Some(&t.1)
                } else if index == 2 {
                    self.index = index + 1;
                    Some(&t.2)
                } else {
                    None
                }
            },
            Arguments::More(xs) => {
                if index < xs.len() {
                    self.index = index + 1;
                    Some(&xs[index])
                } else {
                    None
                }
            },
        }
    }
}

} // verus!
