//! The storage collaborator: a growable byte buffer backed by
//! `smallvec::SmallVec`, which keeps up to `N` bytes inline and spills to a
//! heap allocation once the content outgrows that.
//!
//! Everything in this module is trusted: each method's body is a single call
//! into the outside crate (or into std), and its contract states, over the
//! ghost mirrors of the contents and the capacity, what that call does
//! according to the crate's source. The string logic built on top of it is
//! verified against these contracts. A failed allocation aborts inside the
//! collaborator and is not modeled.
//!
//! The capacity model: an unspilled vector reports its capacity as exactly
//! `N` (the inline array size), and every heap allocation the crate makes
//! holds strictly more than `N` elements, so the vector is spilled exactly
//! when its capacity exceeds `N`. The `spilled` and `capacity` contracts
//! below rest on that correspondence.

use vstd::prelude::*;
use vstd::utf8::decode_utf8;
use vstd::utf8::encode_utf8;
use vstd::utf8::valid_utf8;
use smallvec::SmallVec;

verus! {

/// Holds the `SmallVec` itself. Verus refuses a declaration of the
/// `SmallVec` type (its generic parameter is bound by the crate's own `Array`
/// trait), so the collection sits opaquely in this private field instead.
#[verifier::external_body]
#[verifier::reject_recursive_types(N)]
struct RawVec<const N: usize> {
    data: SmallVec<[u8; N]>,
}

/// A growable byte buffer with `N` bytes of inline storage.
///
/// `bytes` is a ghost mirror of the buffer's contents and `cap` one of its
/// capacity; the trusted methods below describe every change in terms of
/// them.
#[verifier::reject_recursive_types(N)]
pub struct ByteBuf<const N: usize> {
    raw: RawVec<N>,
    bytes: Ghost<Seq<u8>>,
    cap: Ghost<nat>,
}

impl<const N: usize> View for ByteBuf<N> {
    type V = Seq<u8>;

    closed spec fn view(&self) -> Seq<u8> {
        self.bytes@
    }
}

impl<const N: usize> ByteBuf<N> {
    /// The buffer's capacity in bytes: how many it can hold without
    /// re-allocating.
    pub closed spec fn cap(&self) -> nat {
        self.cap@
    }

    /// Relies on `SmallVec::new`: constructs an empty inline vector, whose
    /// capacity is the inline size.
    #[verifier::external_body]
    pub(crate) fn new() -> (r: Self)
        ensures
            r@ == Seq::<u8>::empty(),
            r.cap() == N,
    {
        ByteBuf { raw: RawVec { data: SmallVec::new() }, bytes: Ghost(Seq::empty()), cap: Ghost(N as nat) }
    }

    /// Relies on `SmallVec::with_capacity`: constructs an empty vector whose
    /// capacity is exactly `n`, or the inline size when `n` fits inline.
    #[verifier::external_body]
    pub(crate) fn with_capacity(n: usize) -> (r: Self)
        ensures
            r@ == Seq::<u8>::empty(),
            r.cap() == if n > N {
                n as nat
            } else {
                N as nat
            },
    {
        ByteBuf {
            raw: RawVec { data: SmallVec::with_capacity(n) },
            bytes: Ghost(Seq::empty()),
            cap: Ghost(if n > N { n as nat } else { N as nat }),
        }
    }

    /// Relies on `SmallVec::from_slice`: copies the slice's elements into a
    /// fresh vector, inline when they fit; a heap copy holds at least the
    /// elements.
    #[verifier::external_body]
    pub(crate) fn from_slice(s: &[u8]) -> (r: Self)
        ensures
            r@ == s@,
            s@.len() <= N ==> r.cap() == N,
            s@.len() > N ==> r.cap() >= s@.len(),
    {
        ByteBuf { raw: RawVec { data: SmallVec::from_slice(s) }, bytes: Ghost(s@), cap: Ghost(if s.len() > N { s.len() as nat } else { N as nat }) }
    }

    /// Relies on `SmallVec::from_vec`: takes over the vector's elements (and
    /// its allocation, when too large for the inline store) without copying
    /// the element data byte for byte more than once. Whether the result
    /// spills follows the vector's own capacity, so only bounds are stated.
    #[verifier::external_body]
    pub(crate) fn from_vec(v: Vec<u8>) -> (r: Self)
        ensures
            r@ == v@,
            r.cap() >= N,
            r.cap() >= v@.len(),
    {
        let c = if v.capacity() > N { v.capacity() } else { N };
        ByteBuf { raw: RawVec { data: SmallVec::from_vec(v) }, bytes: Ghost(v@), cap: Ghost(c as nat) }
    }

    /// Relies on `SmallVec::from_buf`: takes the whole array as the initial
    /// contents, inline, so the length equals `N` and so does the capacity.
    #[verifier::external_body]
    pub(crate) fn from_array(a: [u8; N]) -> (r: Self)
        ensures
            r@ == a@,
            r.cap() == N,
    {
        ByteBuf { raw: RawVec { data: SmallVec::from_buf(a) }, bytes: Ghost(a@), cap: Ghost(N as nat) }
    }

    /// Relies on `SmallVec::len`.
    #[verifier::external_body]
    pub(crate) fn len(&self) -> (r: usize)
        ensures
            r == self@.len(),
    {
        self.raw.data.len()
    }

    /// Relies on `SmallVec::capacity`: the inline size when unspilled, the
    /// heap allocation's size otherwise; never below the length.
    #[verifier::external_body]
    pub(crate) fn capacity(&self) -> (r: usize)
        ensures
            r == self.cap(),
            r >= self@.len(),
            r >= N,
    {
        self.raw.data.capacity()
    }

    /// Relies on `SmallVec::inline_size`, which for the array type `[u8; N]`
    /// is `N`.
    #[verifier::external_body]
    pub(crate) fn inline_size(&self) -> (r: usize)
        ensures
            r == N,
    {
        self.raw.data.inline_size()
    }

    /// Relies on `SmallVec::spilled`: the contents live in a separate heap
    /// allocation exactly when the capacity exceeds the inline size, since
    /// every heap allocation the crate makes is strictly larger than `N`.
    #[verifier::external_body]
    pub(crate) fn spilled(&self) -> (r: bool)
        ensures
            r == (self.cap() > N),
    {
        self.raw.data.spilled()
    }

    /// Relies on `SmallVec::as_slice`: a view of the entire contents.
    #[verifier::external_body]
    pub(crate) fn as_slice(&self) -> (r: &[u8])
        ensures
            r@ == self@,
    {
        self.raw.data.as_slice()
    }

    /// Relies on `SmallVec::extend_from_slice`: appends a copy of the slice,
    /// re-allocating (never shrinking) only when the appended contents
    /// outgrow the capacity.
    #[verifier::external_body]
    pub(crate) fn extend_from_slice(&mut self, s: &[u8])
        requires
            old(self)@.len() + s@.len() <= usize::MAX,
        ensures
            final(self)@ == old(self)@ + s@,
            final(self).cap() >= old(self).cap(),
            final(self).cap() >= old(self)@.len() + s@.len(),
            old(self).cap() >= old(self)@.len() + s@.len() ==> final(self).cap() == old(
                self,
            ).cap(),
    {
        self.raw.data.extend_from_slice(s);
    }

    /// Relies on `SmallVec::insert_from_slice`: copies the slice into the
    /// vector at `index`, shifting the tail toward the back; re-allocates
    /// (never shrinking) only when the contents outgrow the capacity.
    #[verifier::external_body]
    pub(crate) fn insert_from_slice(&mut self, index: usize, s: &[u8])
        requires
            index <= old(self)@.len(),
            old(self)@.len() + s@.len() <= usize::MAX,
        ensures
            final(self)@ == old(self)@.subrange(0, index as int) + s@ + old(self)@.subrange(
                index as int,
                old(self)@.len() as int,
            ),
            final(self).cap() >= old(self).cap(),
            final(self).cap() >= old(self)@.len() + s@.len(),
            old(self).cap() >= old(self)@.len() + s@.len() ==> final(self).cap() == old(
                self,
            ).cap(),
    {
        self.raw.data.insert_from_slice(index, s);
    }

    /// Relies on `SmallVec::truncate`: keeps the first `len` elements; a `len`
    /// at or beyond the current length leaves the vector unchanged. It never
    /// re-allocates, so the capacity is untouched.
    #[verifier::external_body]
    pub(crate) fn truncate(&mut self, len: usize)
        ensures
            final(self)@ == if len <= old(self)@.len() {
                old(self)@.subrange(0, len as int)
            } else {
                old(self)@
            },
            final(self).cap() == old(self).cap(),
    {
        self.raw.data.truncate(len);
    }

    /// Relies on `SmallVec::drain`: dropping the returned iterator at once
    /// removes exactly the bytes of `start..end`, closing the gap without
    /// re-allocating.
    #[verifier::external_body]
    pub(crate) fn remove_range(&mut self, start: usize, end: usize)
        requires
            start <= end <= old(self)@.len(),
        ensures
            final(self)@ == old(self)@.subrange(0, start as int) + old(self)@.subrange(
                end as int,
                old(self)@.len() as int,
            ),
            final(self).cap() == old(self).cap(),
    {
        self.raw.data.drain(start..end);
    }

    /// Relies on `SmallVec::as_mut_slice` and std's `slice::copy_within`,
    /// which copies the range `src..src_end` (read before any write, as by an
    /// overlap-safe move) onto the range starting at `dst`, in place.
    #[verifier::external_body]
    pub(crate) fn copy_within(&mut self, src: usize, src_end: usize, dst: usize)
        requires
            src <= src_end <= old(self)@.len(),
            dst + (src_end - src) <= old(self)@.len(),
        ensures
            final(self)@ == old(self)@.subrange(0, dst as int) + old(self)@.subrange(
                src as int,
                src_end as int,
            ) + old(self)@.subrange(dst + (src_end - src), old(self)@.len() as int),
            final(self).cap() == old(self).cap(),
    {
        self.raw.data.as_mut_slice().copy_within(src..src_end, dst);
    }

    /// Relies on `SmallVec::grow`: re-allocates so that the capacity becomes
    /// exactly `max(new_cap, N)` (a `new_cap` within the inline size moves
    /// the contents back inline); the contents stay as they were. The call
    /// panics when `new_cap` is below the current length, so that case is
    /// excluded here.
    #[verifier::external_body]
    pub(crate) fn grow(&mut self, new_cap: usize)
        requires
            new_cap >= old(self)@.len(),
        ensures
            final(self)@ == old(self)@,
            final(self).cap() == if new_cap > N {
                new_cap as nat
            } else {
                N as nat
            },
    {
        self.raw.data.grow(new_cap);
    }

    /// Relies on `SmallVec::reserve`: ensures capacity for `additional` more
    /// bytes, possibly over-allocating and never shrinking; a no-op when the
    /// capacity already suffices. The contents stay as they were.
    #[verifier::external_body]
    pub(crate) fn reserve(&mut self, additional: usize)
        requires
            old(self)@.len() + additional <= usize::MAX,
        ensures
            final(self)@ == old(self)@,
            final(self).cap() >= old(self).cap(),
            final(self).cap() >= old(self)@.len() + additional,
            old(self).cap() >= old(self)@.len() + additional ==> final(self).cap() == old(
                self,
            ).cap(),
    {
        self.raw.data.reserve(additional);
    }

    /// Relies on `SmallVec::reserve_exact`: as `reserve`, but a growth
    /// allocates exactly `length + additional`.
    #[verifier::external_body]
    pub(crate) fn reserve_exact(&mut self, additional: usize)
        requires
            old(self)@.len() + additional <= usize::MAX,
        ensures
            final(self)@ == old(self)@,
            final(self).cap() >= old(self).cap(),
            final(self).cap() >= old(self)@.len() + additional,
            old(self).cap() >= old(self)@.len() + additional ==> final(self).cap() == old(
                self,
            ).cap(),
            old(self).cap() < old(self)@.len() + additional ==> final(self).cap() == old(
                self,
            )@.len() + additional,
    {
        self.raw.data.reserve_exact(additional);
    }

    /// Relies on `SmallVec::shrink_to_fit`: reduces the capacity to exactly
    /// the length, moving the contents back into the inline store (capacity
    /// `N`) when they fit; the contents stay as they were.
    #[verifier::external_body]
    pub(crate) fn shrink_to_fit(&mut self)
        ensures
            final(self)@ == old(self)@,
            final(self).cap() == if old(self)@.len() > N {
                old(self)@.len()
            } else {
                N as nat
            },
    {
        self.raw.data.shrink_to_fit();
    }

    /// Relies on `SmallVec::into_vec`: hands the contents over to a `Vec`,
    /// reusing the allocation when the contents had spilled.
    #[verifier::external_body]
    pub(crate) fn into_vec(self) -> (r: Vec<u8>)
        ensures
            r@ == self@,
    {
        self.raw.data.into_vec()
    }

    /// Relies on `SmallVec::into_inner`: succeeds exactly when the contents
    /// fill the inline array and have not spilled (the capacity is still the
    /// inline size); fails with the vector unchanged otherwise.
    #[verifier::external_body]
    pub(crate) fn into_array(self) -> (r: Result<[u8; N], Self>)
        ensures
            r is Ok <==> (self.cap() == N && self@.len() == N),
            match r {
                Ok(a) => a@ == self@,
                Err(b) => b@ == self@ && b.cap() == self.cap(),
            },
    {
        let c = self.raw.data.capacity();
        match self.raw.data.into_inner() {
            Ok(a) => Ok(a),
            Err(data) => Err(ByteBuf { raw: RawVec { data }, bytes: Ghost(self@), cap: Ghost(c as nat) }),
        }
    }
}

/// Relies on `core::str::from_utf8`: returns `Ok` exactly when the bytes are
/// valid UTF-8, reinterpreting them without copying; on failure,
/// `Utf8Error::valid_up_to` gives the length of the longest valid prefix,
/// which std documents as the maximum index up to which the input was
/// verified.
#[verifier::external_body]
pub(crate) fn bytes_to_str(v: &[u8]) -> (r: Result<&str, usize>)
    ensures
        match r {
            Ok(s) => valid_utf8(v@) && s@ == decode_utf8(v@) && encode_utf8(s@) == v@,
            Err(i) => !valid_utf8(v@) && i <= v@.len() && valid_utf8(v@.subrange(0, i as int))
                && forall|j: int| i < j <= v@.len() ==> !valid_utf8(v@.subrange(0, j)),
        },
{
    match core::str::from_utf8(v) {
        Ok(s) => Ok(s),
        Err(e) => Err(e.valid_up_to()),
    }
}

/// Relies on `String::into_bytes`: hands back the string's UTF-8 bytes,
/// reusing its allocation.
#[verifier::external_body]
pub(crate) fn string_into_vec(s: String) -> (r: Vec<u8>)
    ensures
        r@ == encode_utf8(s@),
{
    s.into_bytes()
}

/// Relies on `String::from_utf8`, which accepts exactly valid UTF-8 bytes and
/// reinterprets them; validity is required here, so the call cannot fail.
#[verifier::external_body]
pub(crate) fn vec_into_string(v: Vec<u8>) -> (r: String)
    requires
        valid_utf8(v@),
    ensures
        r@ == decode_utf8(v@),
{
    String::from_utf8(v).unwrap()
}

} // verus!
