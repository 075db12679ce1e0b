//! A `String`-like container that can hold its bytes inline.
//!
//! `SmallString<N>` keeps up to `N` bytes of UTF-8 text without a heap
//! allocation and grows into one transparently. Every public mutator
//! preserves the invariant that the backing buffer holds exactly a valid
//! UTF-8 sequence, so the text view can be produced without re-validation.

use vstd::prelude::*;
use vstd::utf8::*;
use vstd::string::StrSliceExecFns;
use crate::buffer::ByteBuf;
use crate::buffer::bytes_to_str;

verus! {

broadcast use
    vstd::utf8::encode_utf8_valid_utf8,
    vstd::utf8::encode_utf8_decode_utf8,
    vstd::utf8::char_is_scalar,
;

/// The UTF-8 encoding of a sequence concatenation is the concatenation of the
/// encodings.
pub proof fn lemma_encode_utf8_concat(a: Seq<char>, b: Seq<char>)
    ensures
        encode_utf8(a + b) == encode_utf8(a) + encode_utf8(b),
    decreases a.len(),
{
    if a.len() == 0 {
        assert(a + b =~= b);
        assert(encode_utf8(a) + encode_utf8(b) =~= encode_utf8(b));
    } else {
        lemma_encode_utf8_concat(a.drop_first(), b);
        assert((a + b).drop_first() =~= a.drop_first() + b);
        assert(encode_utf8(a + b) =~= encode_utf8(a) + encode_utf8(b));
    }
}

/// A character boundary within valid UTF-8 never lies beyond the sequence.
proof fn lemma_boundary_le_len(b: Seq<u8>, i: int)
    requires
        valid_utf8(b),
        is_char_boundary(b, i),
    ensures
        0 <= i <= b.len(),
{
    if i != 0 {
        assert(!(i < 0 || b.len() < i));
    }
}

/// Valid UTF-8 of at least one byte decodes to at least one character.
proof fn lemma_decode_nonempty(b: Seq<u8>)
    requires
        valid_utf8(b),
        b.len() > 0,
    ensures
        decode_utf8(b).len() > 0,
{
}

/// The encoding of a single character is the scalar encoding of its value.
proof fn lemma_encode_one(c: char)
    ensures
        encode_utf8(seq![c]) == encode_scalar(c as u32),
{
    assert(seq![c].drop_first() =~= Seq::<char>::empty());
    assert(encode_utf8(Seq::<char>::empty()) =~= Seq::<u8>::empty());
    assert(seq![c][0] == c);
    assert(encode_utf8(seq![c]) == encode_scalar(seq![c][0] as u32) + encode_utf8(
        seq![c].drop_first(),
    ));
    assert(encode_utf8(seq![c]) =~= encode_scalar(c as u32));
}

/// Number of bytes in the UTF-8 encoding of `c`, between 1 and 4.
pub fn char_utf8_len(c: char) -> (r: usize)
    ensures
        r == encode_scalar(c as u32).len(),
        1 <= r <= 4,
{
    let u = c as u32;
    if u < 0x80 {
        1
    } else if u < 0x800 {
        2
    } else if u < 0x10000 {
        3
    } else {
        4
    }
}

/// The UTF-8 encoding of `c`, computed into a fresh byte vector.
fn encode_char_vec(c: char) -> (v: Vec<u8>)
    ensures
        v@ == encode_scalar(c as u32),
        1 <= v@.len() <= 4,
{
    let u = c as u32;
    let mut v: Vec<u8> = Vec::new();
    if u < 0x80 {
        v.push((u & 0x7F) as u8);
    } else if u < 0x800 {
        v.push(0xC0 | ((u >> 6) & 0x1F) as u8);
        v.push(0x80 | (u & 0x3F) as u8);
    } else if u < 0x10000 {
        v.push(0xE0 | ((u >> 12) & 0x0F) as u8);
        v.push(0x80 | ((u >> 6) & 0x3F) as u8);
        v.push(0x80 | (u & 0x3F) as u8);
    } else {
        v.push(0xF0 | ((u >> 18) & 0x7) as u8);
        v.push(0x80 | ((u >> 12) & 0x3F) as u8);
        v.push(0x80 | ((u >> 6) & 0x3F) as u8);
        v.push(0x80 | (u & 0x3F) as u8);
    }
    proof {
        assert(v@ =~= encode_scalar(c as u32));
    }
    v
}

/// The subsequence of `s` selected by the flags of `keep`, in order.
pub open spec fn filter_by(s: Seq<char>, keep: Seq<bool>) -> Seq<char>
    recommends
        s.len() == keep.len(),
    decreases s.len(),
{
    if s.len() == 0 {
        Seq::empty()
    } else {
        (if keep[0] {
            seq![s[0]]
        } else {
            Seq::empty()
        }) + filter_by(s.drop_first(), keep.drop_first())
    }
}

/// Filtering one more element extends the filtered sequence by that element
/// exactly when its flag is set.
proof fn lemma_filter_by_push(s: Seq<char>, keep: Seq<bool>, c: char, b: bool)
    requires
        s.len() == keep.len(),
    ensures
        filter_by(s.push(c), keep.push(b)) == filter_by(s, keep) + (if b {
            seq![c]
        } else {
            Seq::<char>::empty()
        }),
    decreases s.len(),
{
    if s.len() == 0 {
        assert(s =~= Seq::<char>::empty());
        assert(keep =~= Seq::<bool>::empty());
        assert(filter_by(Seq::<char>::empty(), Seq::<bool>::empty()) == Seq::<char>::empty());
        assert(s.push(c)[0] == c);
        assert(keep.push(b)[0] == b);
        assert(s.push(c).drop_first() =~= Seq::<char>::empty());
        assert(keep.push(b).drop_first() =~= Seq::<bool>::empty());
        assert(filter_by(s.push(c), keep.push(b)) == (if b {
            seq![c]
        } else {
            Seq::<char>::empty()
        }) + filter_by(s.push(c).drop_first(), keep.push(b).drop_first()));
        assert(filter_by(s.push(c), keep.push(b)) =~= filter_by(s, keep) + (if b {
            seq![c]
        } else {
            Seq::<char>::empty()
        }));
    } else {
        lemma_filter_by_push(s.drop_first(), keep.drop_first(), c, b);
        assert(s.push(c)[0] == s[0]);
        assert(keep.push(b)[0] == keep[0]);
        assert(s.push(c).drop_first() =~= s.drop_first().push(c));
        assert(keep.push(b).drop_first() =~= keep.drop_first().push(b));
        assert(filter_by(s.push(c), keep.push(b)) == (if keep[0] {
            seq![s[0]]
        } else {
            Seq::<char>::empty()
        }) + filter_by(s.drop_first().push(c), keep.drop_first().push(b)));
        assert(filter_by(s.push(c), keep.push(b)) =~= filter_by(s, keep) + (if b {
            seq![c]
        } else {
            Seq::<char>::empty()
        }));
    }
}

/// A filter that keeps everything reproduces the sequence unchanged, and one
/// that keeps nothing empties it.
pub proof fn lemma_filter_by_const(s: Seq<char>, keep: Seq<bool>)
    requires
        keep.len() == s.len(),
    ensures
        (forall|i: int| 0 <= i < keep.len() ==> keep[i]) ==> filter_by(s, keep) == s,
        (forall|i: int| 0 <= i < keep.len() ==> !keep[i]) ==> filter_by(s, keep)
            == Seq::<char>::empty(),
    decreases s.len(),
{
    if s.len() > 0 {
        lemma_filter_by_const(s.drop_first(), keep.drop_first());
        if forall|i: int| 0 <= i < keep.len() ==> keep[i] {
            assert(filter_by(s, keep) =~= s);
        }
        if forall|i: int| 0 <= i < keep.len() ==> !keep[i] {
            assert(filter_by(s, keep) =~= Seq::<char>::empty());
        }
    }
}

/// The character for one decimal digit.
pub open spec fn digit_char(d: nat) -> char
    recommends
        d < 10,
{
    if d == 0 {
        '0'
    } else if d == 1 {
        '1'
    } else if d == 2 {
        '2'
    } else if d == 3 {
        '3'
    } else if d == 4 {
        '4'
    } else if d == 5 {
        '5'
    } else if d == 6 {
        '6'
    } else if d == 7 {
        '7'
    } else if d == 8 {
        '8'
    } else {
        '9'
    }
}

/// The decimal rendering of `n`: its digits, most significant first, with no
/// sign, grouping, or leading zeros beyond the value's own.
pub open spec fn dec_digits(n: nat) -> Seq<char>
    decreases n,
{
    if n < 10 {
        seq![digit_char(n)]
    } else {
        dec_digits(n / 10).push(digit_char(n % 10))
    }
}

/// The ASCII bytes of the decimal rendering of `n`.
pub open spec fn dec_bytes(n: nat) -> Seq<u8>
    decreases n,
{
    if n < 10 {
        seq![(48 + n) as u8]
    } else {
        dec_bytes(n / 10).push((48 + n % 10) as u8)
    }
}

/// The decimal rendering encodes in UTF-8 to exactly its ASCII bytes, one
/// byte per digit.
proof fn lemma_dec_bytes_utf8(n: nat)
    ensures
        encode_utf8(dec_digits(n)) == dec_bytes(n),
        dec_bytes(n).len() == dec_digits(n).len(),
    decreases n,
{
    assert forall|d: nat| d < 10 implies encode_scalar(digit_char(d) as u32) == seq![
        (48 + d) as u8,
    ] by {
        let u = digit_char(d) as u32;
        assert(u == 48 + d);
        assert(u & 0x7F == u) by (bit_vector)
            requires
                u < 0x80,
        ;
        assert(encode_scalar(u) =~= seq![(48 + d) as u8]);
    }
    if n < 10 {
        lemma_encode_one(digit_char(n));
        assert(dec_digits(n) =~= seq![digit_char(n)]);
        assert(encode_utf8(dec_digits(n)) =~= dec_bytes(n));
    } else {
        lemma_dec_bytes_utf8(n / 10);
        lemma_encode_one(digit_char(n % 10));
        lemma_encode_utf8_concat(dec_digits(n / 10), seq![digit_char(n % 10)]);
        assert(dec_digits(n) =~= dec_digits(n / 10) + seq![digit_char(n % 10)]);
        assert(encode_utf8(dec_digits(n)) =~= dec_bytes(n));
    }
}

/// Ten to the `k`.
spec fn pow10(k: nat) -> nat
    decreases k,
{
    if k == 0 {
        1
    } else {
        10 * pow10((k - 1) as nat)
    }
}

/// Every 64-bit value lies below ten to the twentieth.
proof fn lemma_pow10_holds_u64()
    ensures
        u64::MAX < pow10(20),
{
    reveal_with_fuel(pow10, 21);
}

/// A value below ten to the `k` renders in at most `k` digits.
proof fn lemma_dec_len_bound(n: nat, k: nat)
    requires
        k >= 1,
        n < pow10(k),
    ensures
        dec_bytes(n).len() <= k,
    decreases n,
{
    if n >= 10 {
        assert(pow10(k) == 10 * pow10((k - 1) as nat));
        assert(pow10((k - 1) as nat) > 1);
        assert(n / 10 < pow10((k - 1) as nat)) by (nonlinear_arith)
            requires
                n < 10 * pow10((k - 1) as nat),
                pow10((k - 1) as nat) > 0,
        ;
        lemma_dec_len_bound(n / 10, (k - 1) as nat);
    }
}

/// Appends the decimal digits of `n`, most significant first.
fn push_digits(v: &mut Vec<u8>, n: u64)
    ensures
        final(v)@ == old(v)@ + dec_bytes(n as nat),
        dec_bytes(n as nat).len() <= 20,
    decreases n,
{
    proof {
        lemma_pow10_holds_u64();
        lemma_dec_len_bound(n as nat, 20);
    }
    if n >= 10 {
        push_digits(v, n / 10);
    }
    v.push(48 + (n % 10) as u8);
    proof {
        assert(v@ =~= old(v)@ + dec_bytes(n as nat));
    }
}

/// Round trip: a value whose buffer holds exactly the encoding of a text `s`
/// reads back as exactly `s`, no matter how the encoding's length compares to
/// the inline capacity `N`.
pub proof fn lemma_text_round_trip<const N: usize>(t: SmallString<N>, s: Seq<char>)
    requires
        t.bytes() == encode_utf8(s),
    ensures
        t.wf(),
        t@ == s,
{
}

/// Why a structural edit was refused; the string is left unchanged.
#[derive(Clone, Copy, Debug, PartialEq, Eq, Structural)]
pub enum EditError {
    /// The byte index does not fall on a character boundary.
    NotCharBoundary,
    /// No character starts at the end of the string, so none can be removed
    /// there.
    EndOfString,
}

/// Validation failure when constructing from raw bytes: the bytes up to
/// `valid_up_to` are valid UTF-8, the whole sequence is not.
#[derive(Clone, Copy, Debug, PartialEq, Eq, Structural)]
pub struct InvalidEncoding {
    pub valid_up_to: usize,
}

/// A growable UTF-8 text buffer with `N` bytes of inline storage.
#[verifier::reject_recursive_types(N)]
pub struct SmallString<const N: usize> {
    buf: ByteBuf<N>,
}

impl<const N: usize> View for SmallString<N> {
    type V = Seq<char>;

    /// The text content, as the decoding of the buffer's bytes.
    closed spec fn view(&self) -> Seq<char> {
        decode_utf8(self.bytes())
    }
}

impl<const N: usize> SmallString<N> {
    /// The raw contents of the backing buffer.
    pub closed spec fn bytes(&self) -> Seq<u8> {
        self.buf@
    }

    /// The invariant every public operation preserves: the buffer holds
    /// exactly a valid UTF-8 sequence.
    pub open spec fn wf(&self) -> bool {
        valid_utf8(self.bytes())
    }

    /// The buffer's capacity in bytes. It is `N` exactly as long as the
    /// content has not spilled to the heap, and larger than `N` once it has.
    pub closed spec fn cap(&self) -> nat {
        self.buf.cap()
    }

    /// The view is always the decoding of the bytes; under `wf`, the bytes
    /// are in turn the encoding of the view.
    pub proof fn lemma_view_bytes(&self)
        ensures
            self@ == decode_utf8(self.bytes()),
            self.wf() ==> self.bytes() == encode_utf8(self@),
    {
        if self.wf() {
            decode_utf8_encode_utf8(self.bytes());
        }
    }

    /// Constructs an empty string; no allocation, so the capacity is the
    /// inline size.
    pub fn new() -> (r: SmallString<N>)
        ensures
            r.wf(),
            r@ == Seq::<char>::empty(),
            r.bytes() == Seq::<u8>::empty(),
            r.cap() == N,
    {
        let r = SmallString { buf: ByteBuf::new() };
        proof {
            assert(r@ =~= Seq::<char>::empty());
        }
        r
    }

    /// Constructs an empty string whose buffer can hold at least `n` bytes;
    /// allocates only if `n` exceeds the inline capacity.
    pub fn with_capacity(n: usize) -> (r: SmallString<N>)
        ensures
            r.wf(),
            r@ == Seq::<char>::empty(),
            r.bytes() == Seq::<u8>::empty(),
            r.cap() == if n > N {
                n as nat
            } else {
                N as nat
            },
    {
        let r = SmallString { buf: ByteBuf::with_capacity(n) };
        proof {
            assert(r@ =~= Seq::<char>::empty());
        }
        r
    }

    /// Constructs a `SmallString` by copying the bytes of `s`, inline when
    /// they fit.
    pub fn from_str(s: &str) -> (r: SmallString<N>)
        ensures
            r.wf(),
            r@ == s@,
            r.bytes() == encode_utf8(s@),
            encode_utf8(s@).len() <= N ==> r.cap() == N,
            encode_utf8(s@).len() > N ==> r.cap() >= encode_utf8(s@).len(),
    {
        SmallString { buf: ByteBuf::from_slice(s.as_bytes()) }
    }

    /// Length of the content in bytes.
    pub fn len(&self) -> (r: usize)
        ensures
            r == self.bytes().len(),
            self.wf() ==> r == encode_utf8(self@).len(),
    {
        proof {
            self.lemma_view_bytes();
        }
        self.buf.len()
    }

    /// True when the string holds no bytes, equivalently no characters.
    pub fn is_empty(&self) -> (r: bool)
        ensures
            r == (self.bytes().len() == 0),
            self.wf() ==> r == (self@.len() == 0),
    {
        self.buf.len() == 0
    }

    /// Extracts a string slice over the entire content in O(1), relying on
    /// the UTF-8 invariant instead of re-validating.
    pub fn as_str(&self) -> (r: &str)
        requires
            self.wf(),
        ensures
            r@ == self@,
            encode_utf8(r@) == self.bytes(),
    {
        match bytes_to_str(self.buf.as_slice()) {
            Ok(s) => s,
            Err(_) => vstd::pervasive::unreached(),
        }
    }

    /// True when `index` falls on a character boundary of the content: at the
    /// start, at the end, or on the first byte of a character's encoding.
    pub fn is_char_boundary(&self, index: usize) -> (r: bool)
        requires
            self.wf(),
        ensures
            r == is_char_boundary(self.bytes(), index as int),
    {
        self.as_str().is_char_boundary(index)
    }

    /// Appends the bytes of `s` at the end.
    pub fn push_str(&mut self, s: &str)
        requires
            old(self).wf(),
            old(self).bytes().len() + encode_utf8(s@).len() <= usize::MAX,
        ensures
            final(self).wf(),
            final(self)@ == old(self)@ + s@,
            final(self).bytes() == old(self).bytes() + encode_utf8(s@),
            final(self).cap() >= old(self).cap(),
            final(self).cap() >= final(self).bytes().len(),
            old(self).cap() >= old(self).bytes().len() + encode_utf8(s@).len() ==> final(self).cap() == old(self).cap(),
    {
        proof {
            old(self).lemma_view_bytes();
        }
        self.buf.extend_from_slice(s.as_bytes());
        proof {
            lemma_encode_utf8_concat(old(self)@, s@);
        }
    }

    /// Appends one character at the end.
    pub fn push(&mut self, ch: char)
        requires
            old(self).wf(),
            old(self).bytes().len() + 4 <= usize::MAX,
        ensures
            final(self).wf(),
            final(self)@ == old(self)@.push(ch),
            final(self).bytes() == old(self).bytes() + encode_scalar(ch as u32),
            final(self).cap() >= old(self).cap(),
            final(self).cap() >= final(self).bytes().len(),
            old(self).cap() >= old(self).bytes().len() + encode_scalar(ch as u32).len() ==> final(self).cap() == old(self).cap(),
    {
        proof {
            old(self).lemma_view_bytes();
        }
        let v = encode_char_vec(ch);
        self.buf.extend_from_slice(v.as_slice());
        proof {
            lemma_encode_one(ch);
            lemma_encode_utf8_concat(old(self)@, seq![ch]);
            assert(old(self)@ + seq![ch] =~= old(self)@.push(ch));
        }
    }

    /// Removes the last character and returns it, or `None` on an empty
    /// string. Decodes backward from the end, so multi-byte characters come
    /// back whole.
    pub fn pop(&mut self) -> (r: Option<char>)
        requires
            old(self).wf(),
        ensures
            final(self).wf(),
            old(self)@.len() == 0 ==> r is None && final(self)@ == old(self)@ && final(self).bytes() == old(self).bytes(),
            old(self)@.len() > 0 ==> r == Some(old(self)@.last()) && final(self)@ == old(self)@.drop_last() && final(self).bytes() == encode_utf8(old(self)@.drop_last()),
            final(self).cap() == old(self).cap(),
    {
        proof {
            old(self).lemma_view_bytes();
        }
        let s = self.as_str();
        let n = s.unicode_len();
        if n == 0 {
            proof {
                assert(old(self)@ =~= Seq::<char>::empty());
            }
            return None;
        }
        let c = s.get_char(n - 1);
        let clen = char_utf8_len(c);
        proof {
            assert(c == old(self)@.last());
            lemma_encode_one(c);
            lemma_encode_utf8_concat(old(self)@.drop_last(), seq![c]);
            assert(old(self)@.drop_last() + seq![c] =~= old(self)@);
        }
        let blen = self.buf.len();
        self.buf.truncate(blen - clen);
        proof {
            assert(final(self).bytes() =~= encode_utf8(old(self)@.drop_last()));
        }
        Some(c)
    }

    /// Shortens the string to its first `len` bytes without reallocating, so
    /// the capacity stays. `len` must fall on a character boundary (the
    /// length itself counts as one). For the contract on refused lengths see
    /// `try_truncate`.
    pub fn truncate(&mut self, len: usize)
        requires
            old(self).wf(),
            is_char_boundary(old(self).bytes(), len as int),
        ensures
            final(self).wf(),
            final(self).cap() == old(self).cap(),
            final(self).bytes() == old(self).bytes().subrange(0, len as int),
            final(self)@ == decode_utf8(old(self).bytes().subrange(0, len as int)),
            old(self)@ == final(self)@ + decode_utf8(
                old(self).bytes().subrange(len as int, old(self).bytes().len() as int),
            ),
    {
        proof {
            lemma_boundary_le_len(old(self).bytes(), len as int);
            valid_utf8_split(old(self).bytes(), len as int);
            decode_utf8_split(old(self).bytes(), len as int);
        }
        let s = self.as_str();
        // A caller outside the contract stops here, as the boundary rule
        // demands, before any byte has moved.
        if !s.is_char_boundary(len) {
            vstd::pervasive::unreached::<()>();
        }
        self.buf.truncate(len);
    }

    /// Empties the string; the capacity is retained.
    pub fn clear(&mut self)
        ensures
            final(self).wf(),
            final(self)@ == Seq::<char>::empty(),
            final(self).bytes() == Seq::<u8>::empty(),
            final(self).cap() == old(self).cap(),
    {
        self.buf.truncate(0);
        proof {
            assert(final(self).bytes() =~= Seq::<u8>::empty());
            assert(final(self)@ =~= Seq::<char>::empty());
        }
    }

    /// Inserts one character at the given byte position, which must fall on a
    /// character boundary. The tail is shifted right by an overlap-safe block
    /// move. For the contract on refused offsets — every non-boundary index
    /// is rejected with the string unchanged — see `try_insert`.
    pub fn insert(&mut self, index: usize, ch: char)
        requires
            old(self).wf(),
            is_char_boundary(old(self).bytes(), index as int),
            old(self).bytes().len() + 4 <= usize::MAX,
        ensures
            final(self).wf(),
            final(self).cap() >= old(self).cap(),
            final(self).cap() >= final(self).bytes().len(),
            old(self).cap() >= old(self).bytes().len() + encode_scalar(ch as u32).len() ==> final(self).cap() == old(self).cap(),
            final(self).bytes() == old(self).bytes().subrange(0, index as int) + encode_scalar(
                ch as u32,
            ) + old(self).bytes().subrange(index as int, old(self).bytes().len() as int),
            final(self)@ == decode_utf8(old(self).bytes().subrange(0, index as int)) + seq![ch]
                + decode_utf8(
                old(self).bytes().subrange(index as int, old(self).bytes().len() as int),
            ),
            old(self)@ == decode_utf8(old(self).bytes().subrange(0, index as int)) + decode_utf8(
                old(self).bytes().subrange(index as int, old(self).bytes().len() as int),
            ),
    {
        proof {
            lemma_boundary_le_len(old(self).bytes(), index as int);
            valid_utf8_split(old(self).bytes(), index as int);
            decode_utf8_split(old(self).bytes(), index as int);
        }
        let s = self.as_str();
        // A caller outside the contract stops here, as the boundary rule
        // demands, before any byte has moved.
        if !s.is_char_boundary(index) {
            vstd::pervasive::unreached::<()>();
        }
        let v = encode_char_vec(ch);
        self.buf.insert_from_slice(index, v.as_slice());
        proof {
            let a = old(self).bytes().subrange(0, index as int);
            let b = old(self).bytes().subrange(index as int, old(self).bytes().len() as int);
            decode_utf8_encode_utf8(a);
            decode_utf8_encode_utf8(b);
            lemma_encode_one(ch);
            lemma_encode_utf8_concat(decode_utf8(a) + seq![ch], decode_utf8(b));
            lemma_encode_utf8_concat(decode_utf8(a), seq![ch]);
            assert(final(self).bytes() =~= encode_utf8(
                decode_utf8(a) + seq![ch] + decode_utf8(b),
            ));
        }
    }

    /// Inserts the bytes of `s` at the given byte position, which must fall
    /// on a character boundary. The tail is shifted right by an overlap-safe
    /// block move. For the contract on refused offsets see `try_insert_str`.
    pub fn insert_str(&mut self, index: usize, s: &str)
        requires
            old(self).wf(),
            is_char_boundary(old(self).bytes(), index as int),
            old(self).bytes().len() + encode_utf8(s@).len() <= usize::MAX,
        ensures
            final(self).wf(),
            final(self).cap() >= old(self).cap(),
            final(self).cap() >= final(self).bytes().len(),
            old(self).cap() >= old(self).bytes().len() + encode_utf8(s@).len() ==> final(self).cap() == old(self).cap(),
            final(self).bytes() == old(self).bytes().subrange(0, index as int) + encode_utf8(s@)
                + old(self).bytes().subrange(index as int, old(self).bytes().len() as int),
            final(self)@ == decode_utf8(old(self).bytes().subrange(0, index as int)) + s@
                + decode_utf8(
                old(self).bytes().subrange(index as int, old(self).bytes().len() as int),
            ),
            old(self)@ == decode_utf8(old(self).bytes().subrange(0, index as int)) + decode_utf8(
                old(self).bytes().subrange(index as int, old(self).bytes().len() as int),
            ),
    {
        proof {
            lemma_boundary_le_len(old(self).bytes(), index as int);
            valid_utf8_split(old(self).bytes(), index as int);
            decode_utf8_split(old(self).bytes(), index as int);
        }
        let t = self.as_str();
        // A caller outside the contract stops here, as the boundary rule
        // demands, before any byte has moved.
        if !t.is_char_boundary(index) {
            vstd::pervasive::unreached::<()>();
        }
        self.buf.insert_from_slice(index, s.as_bytes());
        proof {
            let a = old(self).bytes().subrange(0, index as int);
            let b = old(self).bytes().subrange(index as int, old(self).bytes().len() as int);
            decode_utf8_encode_utf8(a);
            decode_utf8_encode_utf8(b);
            lemma_encode_utf8_concat(decode_utf8(a) + s@, decode_utf8(b));
            lemma_encode_utf8_concat(decode_utf8(a), s@);
            assert(final(self).bytes() =~= encode_utf8(decode_utf8(a) + s@ + decode_utf8(b)));
        }
    }

    /// Removes the character that starts at the given byte position and
    /// returns it. The position must fall on a character boundary and lie
    /// strictly before the end. For the contract on refused offsets — a
    /// non-boundary index, or the very end — see `try_remove`.
    pub fn remove(&mut self, index: usize) -> (r: char)
        requires
            old(self).wf(),
            is_char_boundary(old(self).bytes(), index as int),
            index < old(self).bytes().len(),
        ensures
            final(self).wf(),
            final(self).cap() == old(self).cap(),
            ({
                let k = decode_utf8(old(self).bytes().subrange(0, index as int)).len() as int;
                &&& 0 <= k < old(self)@.len()
                &&& r == old(self)@[k]
                &&& final(self)@ == old(self)@.remove(k)
                &&& final(self).bytes() == old(self).bytes().subrange(0, index as int) + old(self).bytes().subrange(
                    index + encode_scalar(r as u32).len(),
                    old(self).bytes().len() as int,
                )
            }),
    {
        proof {
            lemma_boundary_le_len(old(self).bytes(), index as int);
            valid_utf8_split(old(self).bytes(), index as int);
            decode_utf8_split(old(self).bytes(), index as int);
        }
        let blen = self.buf.len();
        let s = self.as_str();
        // A caller outside the contract stops here, as the boundary rule
        // demands, before any byte has moved: one stop for an index inside a
        // character, a distinct one for the index at the very end.
        if !s.is_char_boundary(index) {
            vstd::pervasive::unreached::<()>();
        }
        if index >= blen {
            vstd::pervasive::unreached::<()>();
        }
        let ghost a = old(self).bytes().subrange(0, index as int);
        let ghost bb = old(self).bytes().subrange(index as int, old(self).bytes().len() as int);
        let (_, tail) = s.split_at(index);
        proof {
            assert(encode_utf8(tail@) =~= bb);
            decode_utf8_encode_utf8(a);
            lemma_decode_nonempty(bb);
        }
        let c = tail.get_char(0);
        let clen = char_utf8_len(c);
        proof {
            assert(tail@ == decode_utf8(bb));
            assert(c == decode_utf8(bb)[0]);
            lemma_encode_one(c);
            lemma_encode_utf8_concat(seq![c], decode_utf8(bb).drop_first());
            assert(seq![c] + decode_utf8(bb).drop_first() =~= decode_utf8(bb));
            assert(bb =~= encode_scalar(c as u32) + encode_utf8(decode_utf8(bb).drop_first()));
            assert(clen <= bb.len());
            assert(index + bb.len() == blen);
            assert(bb.subrange(clen as int, bb.len() as int) =~= encode_utf8(
                decode_utf8(bb).drop_first(),
            ));
        }
        self.buf.remove_range(index, index + clen);
        proof {
            let kept = decode_utf8(a) + decode_utf8(bb).drop_first();
            lemma_encode_utf8_concat(decode_utf8(a), decode_utf8(bb).drop_first());
            assert(final(self).bytes() =~= encode_utf8(kept));
            assert(old(self)@ =~= decode_utf8(a) + decode_utf8(bb));
            assert(final(self)@ =~= old(self)@.remove(decode_utf8(a).len() as int));
            assert(final(self).bytes() =~= old(self).bytes().subrange(0, index as int) + old(self).bytes().subrange(index + clen, old(self).bytes().len() as int));
        }
        c
    }

    /// Like `insert`, but refuses a non-boundary index with an error instead
    /// of demanding it up front; on refusal the string is untouched.
    pub fn try_insert(&mut self, index: usize, ch: char) -> (r: Result<(), EditError>)
        requires
            old(self).wf(),
            old(self).bytes().len() + 4 <= usize::MAX,
        ensures
            final(self).wf(),
            is_char_boundary(old(self).bytes(), index as int) ==> r is Ok && final(self).bytes()
                == old(self).bytes().subrange(0, index as int) + encode_scalar(ch as u32) + old(self).bytes().subrange(index as int, old(self).bytes().len() as int) && final(self)@
                == decode_utf8(old(self).bytes().subrange(0, index as int)) + seq![ch]
                + decode_utf8(
                old(self).bytes().subrange(index as int, old(self).bytes().len() as int),
            ),
            !is_char_boundary(old(self).bytes(), index as int) ==> r == Err::<(), EditError>(
                EditError::NotCharBoundary,
            ) && final(self)@ == old(self)@ && final(self).bytes() == old(self).bytes() && final(self).cap() == old(self).cap(),
            final(self).cap() >= old(self).cap(),
    {
        proof {
            old(self).lemma_view_bytes();
        }
        let ok = self.as_str().is_char_boundary(index);
        if ok {
            self.insert(index, ch);
            Ok(())
        } else {
            Err(EditError::NotCharBoundary)
        }
    }

    /// Like `insert_str`, but refuses a non-boundary index with an error
    /// instead of demanding it up front; on refusal the string is untouched.
    pub fn try_insert_str(&mut self, index: usize, s: &str) -> (r: Result<(), EditError>)
        requires
            old(self).wf(),
            old(self).bytes().len() + encode_utf8(s@).len() <= usize::MAX,
        ensures
            final(self).wf(),
            is_char_boundary(old(self).bytes(), index as int) ==> r is Ok && final(self).bytes()
                == old(self).bytes().subrange(0, index as int) + encode_utf8(s@) + old(self).bytes().subrange(index as int, old(self).bytes().len() as int) && final(self)@
                == decode_utf8(old(self).bytes().subrange(0, index as int)) + s@ + decode_utf8(
                old(self).bytes().subrange(index as int, old(self).bytes().len() as int),
            ),
            !is_char_boundary(old(self).bytes(), index as int) ==> r == Err::<(), EditError>(
                EditError::NotCharBoundary,
            ) && final(self)@ == old(self)@ && final(self).bytes() == old(self).bytes() && final(self).cap() == old(self).cap(),
            final(self).cap() >= old(self).cap(),
    {
        proof {
            old(self).lemma_view_bytes();
        }
        let ok = self.as_str().is_char_boundary(index);
        if ok {
            self.insert_str(index, s);
            Ok(())
        } else {
            Err(EditError::NotCharBoundary)
        }
    }

    /// Like `remove`, but reports a non-boundary index or the end-of-string
    /// position as an error instead of demanding them away up front; on
    /// refusal the string is untouched.
    pub fn try_remove(&mut self, index: usize) -> (r: Result<char, EditError>)
        requires
            old(self).wf(),
        ensures
            final(self).wf(),
            final(self).cap() == old(self).cap(),
            !is_char_boundary(old(self).bytes(), index as int) ==> r == Err::<char, EditError>(
                EditError::NotCharBoundary,
            ) && final(self)@ == old(self)@ && final(self).bytes() == old(self).bytes(),
            is_char_boundary(old(self).bytes(), index as int) && index == old(self).bytes().len()
                ==> r == Err::<char, EditError>(EditError::EndOfString) && final(self)@ == old(self)@ && final(self).bytes() == old(self).bytes(),
            is_char_boundary(old(self).bytes(), index as int) && index < old(self).bytes().len()
                ==> ({
                let k = decode_utf8(old(self).bytes().subrange(0, index as int)).len() as int;
                &&& r is Ok
                &&& r->Ok_0 == old(self)@[k]
                &&& final(self)@ == old(self)@.remove(k)
            }),
    {
        proof {
            old(self).lemma_view_bytes();
            if is_char_boundary(old(self).bytes(), index as int) {
                lemma_boundary_le_len(old(self).bytes(), index as int);
            }
        }
        let blen = self.buf.len();
        let ok = self.as_str().is_char_boundary(index);
        if !ok {
            Err(EditError::NotCharBoundary)
        } else if index >= blen {
            Err(EditError::EndOfString)
        } else {
            Ok(self.remove(index))
        }
    }

    /// Like `truncate`, but refuses a non-boundary length with an error
    /// instead of demanding it up front; on refusal the string is untouched.
    pub fn try_truncate(&mut self, len: usize) -> (r: Result<(), EditError>)
        requires
            old(self).wf(),
        ensures
            final(self).wf(),
            final(self).cap() == old(self).cap(),
            is_char_boundary(old(self).bytes(), len as int) ==> r is Ok && final(self).bytes()
                == old(self).bytes().subrange(0, len as int) && final(self)@ == decode_utf8(
                old(self).bytes().subrange(0, len as int),
            ),
            !is_char_boundary(old(self).bytes(), len as int) ==> r == Err::<(), EditError>(
                EditError::NotCharBoundary,
            ) && final(self)@ == old(self)@ && final(self).bytes() == old(self).bytes(),
    {
        let ok = self.as_str().is_char_boundary(len);
        if ok {
            self.truncate(len);
            Ok(())
        } else {
            Err(EditError::NotCharBoundary)
        }
    }

    /// The buffer's capacity in bytes; never below the content length nor
    /// the inline size.
    pub fn capacity(&self) -> (r: usize)
        ensures
            r == self.cap(),
            r >= self.bytes().len(),
            r >= N,
    {
        self.buf.capacity()
    }

    /// The number of bytes the string can hold inline, which is `N`.
    pub fn inline_size(&self) -> (r: usize)
        ensures
            r == N,
    {
        self.buf.inline_size()
    }

    /// True when the content has spilled into a separate heap allocation,
    /// which holds exactly when the capacity exceeds the inline size.
    pub fn spilled(&self) -> (r: bool)
        ensures
            r == (self.cap() > N),
    {
        self.buf.spilled()
    }

    /// Re-allocates so the capacity becomes exactly `max(new_cap, N)`,
    /// moving the content back inline when `new_cap` fits there; the content
    /// is unchanged. `new_cap` must not undercut the current length.
    pub fn grow(&mut self, new_cap: usize)
        requires
            new_cap >= old(self).bytes().len(),
        ensures
            final(self)@ == old(self)@,
            final(self).bytes() == old(self).bytes(),
            final(self).cap() == if new_cap > N {
                new_cap as nat
            } else {
                N as nat
            },
    {
        self.buf.grow(new_cap);
    }

    /// Ensures capacity for at least `additional` more bytes, possibly
    /// over-allocating and never shrinking; a no-op when the capacity already
    /// suffices. The content is unchanged.
    pub fn reserve(&mut self, additional: usize)
        requires
            old(self).bytes().len() + additional <= usize::MAX,
        ensures
            final(self)@ == old(self)@,
            final(self).bytes() == old(self).bytes(),
            final(self).cap() >= old(self).cap(),
            final(self).cap() >= old(self).bytes().len() + additional,
            old(self).cap() >= old(self).bytes().len() + additional ==> final(self).cap() == old(self).cap(),
    {
        self.buf.reserve(additional);
    }

    /// Ensures capacity for at least `additional` more bytes, allocating
    /// exactly that much on growth; the content is unchanged.
    pub fn reserve_exact(&mut self, additional: usize)
        requires
            old(self).bytes().len() + additional <= usize::MAX,
        ensures
            final(self)@ == old(self)@,
            final(self).bytes() == old(self).bytes(),
            final(self).cap() >= old(self).cap(),
            final(self).cap() >= old(self).bytes().len() + additional,
            old(self).cap() >= old(self).bytes().len() + additional ==> final(self).cap() == old(self).cap(),
            old(self).cap() < old(self).bytes().len() + additional ==> final(self).cap() == old(self).bytes().len() + additional,
    {
        self.buf.reserve_exact(additional);
    }

    /// Shrinks the capacity to exactly the content length, moving spilled
    /// content back inline (capacity `N` again) when it fits; the content is
    /// unchanged.
    pub fn shrink_to_fit(&mut self)
        ensures
            final(self)@ == old(self)@,
            final(self).bytes() == old(self).bytes(),
            final(self).cap() == if old(self).bytes().len() > N {
                old(self).bytes().len()
            } else {
                N as nat
            },
    {
        self.buf.shrink_to_fit();
    }

    /// Constructs a `SmallString` by taking over the byte allocation of `s`.
    /// Whether the result spills follows that allocation's own capacity, so
    /// only bounds are stated of the capacity.
    pub fn from_string(s: String) -> (r: SmallString<N>)
        ensures
            r.wf(),
            r@ == s@,
            r.bytes() == encode_utf8(s@),
            r.cap() >= N,
            r.cap() >= encode_utf8(s@).len(),
    {
        SmallString { buf: ByteBuf::from_vec(crate::buffer::string_into_vec(s)) }
    }

    /// Converts into an ordinary `String`, reusing the allocation when the
    /// content had spilled.
    pub fn into_string(self) -> (r: String)
        requires
            self.wf(),
        ensures
            r@ == self@,
    {
        proof {
            self.lemma_view_bytes();
        }
        crate::buffer::vec_into_string(self.buf.into_vec())
    }

    /// Constructs a `SmallString` over a whole fixed-size byte array,
    /// validating it first: fails with `InvalidEncoding` when the array is
    /// not valid UTF-8, and succeeds exactly otherwise.
    pub fn from_buf(buf: [u8; N]) -> (r: Result<SmallString<N>, InvalidEncoding>)
        ensures
            valid_utf8(buf@) <==> r is Ok,
            match r {
                Ok(t) => t.wf() && t.bytes() == buf@ && t@ == decode_utf8(buf@) && t.cap() == N,
                Err(e) => e.valid_up_to <= N && valid_utf8(buf@.subrange(0, e.valid_up_to as int))
                    && forall|j: int|
                    e.valid_up_to < j <= N ==> !valid_utf8(buf@.subrange(0, j)),
            },
    {
        let b = ByteBuf::from_array(buf);
        let off: usize;
        match bytes_to_str(b.as_slice()) {
            Ok(_) => {
                return Ok(SmallString { buf: b });
            },
            Err(i) => {
                off = i;
            },
        }
        Err(InvalidEncoding { valid_up_to: off })
    }

    /// Constructs a `SmallString` over a whole fixed-size byte array without
    /// validating; the caller asserts that the array is valid UTF-8.
    pub fn from_buf_unchecked(buf: [u8; N]) -> (r: SmallString<N>)
        requires
            valid_utf8(buf@),
        ensures
            r.wf(),
            r.bytes() == buf@,
            r@ == decode_utf8(buf@),
            r.cap() == N,
    {
        SmallString { buf: ByteBuf::from_array(buf) }
    }

    /// Converts into the inline byte array exactly when the content fills it
    /// and has not spilled; hands the string back unchanged otherwise.
    pub fn into_inner(self) -> (r: Result<[u8; N], SmallString<N>>)
        ensures
            r is Ok <==> (self.cap() == N && self.bytes().len() == N),
            match r {
                Ok(a) => a@ == self.bytes(),
                Err(t) => t.bytes() == self.bytes() && t@ == self@ && t.cap() == self.cap(),
            },
    {
        match self.buf.into_array() {
            Ok(a) => Ok(a),
            Err(b) => Err(SmallString { buf: b }),
        }
    }

    /// Appends the decimal rendering of `num`, indistinguishable from
    /// rendering to a temporary string and appending that: no sign, no
    /// grouping, no leading zeros, and `0` renders as one digit.
    pub fn push_integer(&mut self, num: u64)
        requires
            old(self).wf(),
            old(self).bytes().len() + 20 <= usize::MAX,
        ensures
            final(self).wf(),
            final(self)@ == old(self)@ + dec_digits(num as nat),
            final(self).bytes() == old(self).bytes() + encode_utf8(dec_digits(num as nat)),
            final(self).cap() >= old(self).cap(),
            final(self).cap() >= final(self).bytes().len(),
    {
        proof {
            old(self).lemma_view_bytes();
        }
        let mut v: Vec<u8> = Vec::new();
        push_digits(&mut v, num);
        proof {
            lemma_dec_bytes_utf8(num as nat);
            assert(v@ =~= encode_utf8(dec_digits(num as nat)));
        }
        self.buf.extend_from_slice(v.as_slice());
        proof {
            lemma_encode_utf8_concat(old(self)@, dec_digits(num as nat));
        }
    }

    /// Keeps only the characters the predicate accepts, in place and in
    /// order. The predicate is evaluated over all characters first; only then
    /// does a single left-to-right pass move each kept character's bytes
    /// backward over the gap the rejected ones left and commit the shortened
    /// length. So a predicate that panics mid-pass, which only a caller
    /// outside the contract can supply, leaves the value untouched and always
    /// consistent. The capacity is never changed.
    #[verifier::rlimit(50)]
    pub fn retain<F: Fn(char) -> bool>(&mut self, f: F)
        requires
            old(self).wf(),
            forall|c: char| #[trigger] call_requires(f, (c,)),
        ensures
            final(self).wf(),
            final(self).cap() == old(self).cap(),
            exists|keep: Seq<bool>|
                {
                    &&& keep.len() == old(self)@.len()
                    &&& forall|i: int|
                        0 <= i < keep.len() ==> call_ensures(f, (old(self)@[i],), keep[i])
                    &&& final(self)@ == #[trigger] filter_by(old(self)@, keep)
                },
    {
        proof {
            old(self).lemma_view_bytes();
        }
        let chars = collect_chars(self.as_str());
        let blen = self.buf.len();
        let n = chars.len();

        // First pass: decide every character while the buffer still holds
        // exactly the old content.
        let mut flags: Vec<bool> = Vec::new();
        let mut k: usize = 0;
        while k < n
            invariant
                n == chars@.len(),
                k <= n,
                flags@.len() == k,
                forall|i: int| 0 <= i < k ==> call_ensures(f, (chars@[i],), flags@[i]),
                forall|c: char| #[trigger] call_requires(f, (c,)),
            decreases n - k,
        {
            let keep = f(chars[k]);
            flags.push(keep);
            k = k + 1;
        }

        // Second pass: compact the kept characters' bytes and cut the length.
        let mut rp: usize = 0;  // read cursor, in bytes
        let mut del: usize = 0;  // bytes freed by rejected characters so far
        k = 0;
        while k < n
            invariant
                old(self).wf(),
                chars@ == old(self)@,
                n == chars@.len(),
                old(self).bytes() == encode_utf8(chars@),
                blen == old(self).bytes().len(),
                k <= n,
                rp == encode_utf8(chars@.take(k as int)).len(),
                rp <= blen,
                del <= rp,
                flags@.len() == n,
                forall|i: int| 0 <= i < n ==> call_ensures(f, (chars@[i],), flags@[i]),
                self.bytes().len() == blen,
                self.cap() == old(self).cap(),
                self.bytes().subrange(0, rp - del) == encode_utf8(
                    filter_by(chars@.take(k as int), flags@.take(k as int)),
                ),
                self.bytes().subrange(rp as int, blen as int) == old(self).bytes().subrange(
                    rp as int,
                    blen as int,
                ),
            decreases n - k,
        {
            let c = chars[k];
            let clen = char_utf8_len(c);
            proof {
                lemma_encode_one(c);
                lemma_encode_utf8_concat(chars@.take(k as int), seq![c]);
                assert(chars@.take(k + 1 as int) =~= chars@.take(k as int) + seq![c]);
                lemma_encode_utf8_concat(chars@.take(k + 1 as int), chars@.skip(k + 1 as int));
                assert(chars@.take(k + 1 as int) + chars@.skip(k + 1 as int) =~= chars@);
                assert(old(self).bytes().subrange(rp as int, rp + clen as int) =~= encode_scalar(
                    c as u32,
                ));
                assert(self.bytes().subrange(rp as int, rp + clen as int) =~= old(self).bytes().subrange(rp as int, rp + clen as int));
            }
            let keep = flags[k];
            let ghost pre_bytes = self.bytes();
            let ghost pre_kept = filter_by(chars@.take(k as int), flags@.take(k as int));
            proof {
                lemma_filter_by_push(chars@.take(k as int), flags@.take(k as int), c, keep);
                assert(chars@.take(k + 1 as int) =~= chars@.take(k as int).push(c));
                assert(flags@.take(k + 1 as int) =~= flags@.take(k as int).push(keep));
            }
            if !keep {
                del = del + clen;
                proof {
                    assert(filter_by(chars@.take(k + 1 as int), flags@.take(k + 1 as int))
                        =~= pre_kept);
                    assert(self.bytes().subrange(0, rp + clen - del) =~= encode_utf8(pre_kept));
                }
            } else {
                proof {
                    assert(filter_by(chars@.take(k + 1 as int), flags@.take(k + 1 as int))
                        =~= pre_kept + seq![c]);
                    lemma_encode_utf8_concat(pre_kept, seq![c]);
                }
                if del > 0 {
                    self.buf.copy_within(rp, rp + clen, rp - del);
                    proof {
                        assert(self.bytes().subrange(0, rp - del) =~= pre_bytes.subrange(
                            0,
                            rp - del,
                        ));
                        assert(self.bytes().subrange(rp - del, rp + clen - del) =~= encode_scalar(
                            c as u32,
                        ));
                        assert(self.bytes().subrange(0, rp + clen - del) =~= encode_utf8(
                            pre_kept + seq![c],
                        ));
                        assert(self.bytes().subrange(rp + clen as int, blen as int)
                            =~= pre_bytes.subrange(rp + clen as int, blen as int));
                    }
                } else {
                    proof {
                        assert(self.bytes().subrange(0, rp + clen - del) =~= encode_utf8(
                            pre_kept + seq![c],
                        ));
                    }
                }
            }
            proof {
                assert(self.bytes().subrange(rp + clen as int, blen as int) =~= pre_bytes.subrange(
                    rp + clen as int,
                    blen as int,
                ));
                assert forall|i: int| rp + clen <= i < blen implies pre_bytes[i] == old(self).bytes()[i] by {
                    assert(pre_bytes.subrange(rp as int, blen as int)[i - rp] == old(self).bytes().subrange(rp as int, blen as int)[i - rp]);
                }
                assert(pre_bytes.subrange(rp + clen as int, blen as int) =~= old(self).bytes().subrange(rp + clen as int, blen as int));
            }
            rp = rp + clen;
            k = k + 1;
        }
        proof {
            assert(chars@.take(n as int) =~= chars@);
            assert(flags@.take(n as int) =~= flags@);
        }
        self.buf.truncate(rp - del);
        proof {
            assert(final(self).bytes() =~= encode_utf8(filter_by(chars@, flags@)));
            assert(filter_by(old(self)@, flags@) == final(self)@);
        }
    }

    /// Empties the string at once and hands back an iterator over the
    /// characters it held; the characters were taken out before the length
    /// was cut, so dropping the iterator early discards the rest. The
    /// capacity (and with it the spilled state) is untouched: it returns to
    /// the inline size only through an explicit shrink.
    pub fn drain(&mut self) -> (r: Drain)
        requires
            old(self).wf(),
        ensures
            final(self).wf(),
            final(self)@ == Seq::<char>::empty(),
            final(self).bytes() == Seq::<u8>::empty(),
            final(self).cap() == old(self).cap(),
            r.wf(),
            r@ == old(self)@,
    {
        let chars = collect_chars(self.as_str());
        let n = chars.len();
        self.buf.truncate(0);
        proof {
            assert(final(self).bytes() =~= Seq::<u8>::empty());
            assert(final(self)@ =~= Seq::<char>::empty());
            assert(chars@.subrange(0, n as int) =~= chars@);
        }
        Drain { chars, front: 0, back: n }
    }
}

impl<const N: usize> Default for SmallString<N> {
    /// The default value is the empty string, inline.
    fn default() -> (r: Self)
        ensures
            r.wf(),
            r@ == Seq::<char>::empty(),
            r.bytes() == Seq::<u8>::empty(),
            r.cap() == N,
    {
        SmallString::new()
    }
}

/// Collects the characters of `s` into a vector, in order.
fn collect_chars(s: &str) -> (v: Vec<char>)
    ensures
        v@ == s@,
{
    let n = s.unicode_len();
    let mut v: Vec<char> = Vec::new();
    let mut k: usize = 0;
    while k < n
        invariant
            k <= n,
            n == s@.len(),
            v@ == s@.take(k as int),
        decreases n - k,
    {
        let c = s.get_char(k);
        v.push(c);
        k = k + 1;
        proof {
            assert(s@.take(k as int) =~= s@.take(k as int - 1).push(s@[k as int - 1]));
        }
    }
    proof {
        assert(s@.take(n as int) =~= s@);
    }
    v
}

/// A double-ended iterator over the characters that `drain` removed. The
/// characters were detached from the string before iteration begins; the two
/// ends converge toward the middle.
pub struct Drain {
    chars: Vec<char>,
    front: usize,
    back: usize,
}

impl View for Drain {
    type V = Seq<char>;

    /// The characters not yet consumed from either end.
    closed spec fn view(&self) -> Seq<char> {
        self.chars@.subrange(self.front as int, self.back as int)
    }
}

impl Drain {
    /// The cursors stay ordered and inside the detached characters.
    pub closed spec fn wf(&self) -> bool {
        self.front <= self.back <= self.chars@.len()
    }

    /// Consumes and returns the foremost remaining character, or `None` once
    /// the two ends have met.
    pub fn next(&mut self) -> (r: Option<char>)
        requires
            old(self).wf(),
        ensures
            final(self).wf(),
            old(self)@.len() == 0 ==> r is None && final(self)@ == old(self)@,
            old(self)@.len() > 0 ==> r == Some(old(self)@.first()) && final(self)@ == old(self)@.drop_first(),
    {
        if self.front < self.back {
            let c = self.chars[self.front];
            self.front = self.front + 1;
            proof {
                assert(self@ =~= old(self)@.drop_first());
            }
            Some(c)
        } else {
            None
        }
    }

    /// How many characters are still to be consumed.
    pub fn remaining(&self) -> (r: usize)
        requires
            self.wf(),
        ensures
            r == self@.len(),
    {
        self.back - self.front
    }

    /// Consumes and returns the rearmost remaining character, or `None` once
    /// the two ends have met.
    pub fn next_back(&mut self) -> (r: Option<char>)
        requires
            old(self).wf(),
        ensures
            final(self).wf(),
            old(self)@.len() == 0 ==> r is None && final(self)@ == old(self)@,
            old(self)@.len() > 0 ==> r == Some(old(self)@.last()) && final(self)@ == old(self)@.drop_last(),
    {
        if self.front < self.back {
            self.back = self.back - 1;
            let c = self.chars[self.back];
            proof {
                assert(self@ =~= old(self)@.drop_last());
            }
            Some(c)
        } else {
            None
        }
    }
}

} // verus!
