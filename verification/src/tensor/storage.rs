//! Byte buffers and the little-endian encoding of 32-bit elements in them.
use vstd::prelude::*;
use crate::runtime::Runtime;
use crate::runtime::lemma_with_entry;
use crate::scalar::ScalarOp;

verus! {

/// The byte of rank `k` (0 is the least significant) of a 32-bit word.
pub open spec fn byte_of(w: u32, k: int) -> u8 {
    if k == 0 {
        (w & 0xff) as u8
    } else if k == 1 {
        ((w >> 8) & 0xff) as u8
    } else if k == 2 {
        ((w >> 16) & 0xff) as u8
    } else {
        ((w >> 24) & 0xff) as u8
    }
}

/// The 32-bit word whose bytes, least significant first, are the arguments.
pub open spec fn compose(b0: u8, b1: u8, b2: u8, b3: u8) -> u32 {
    (b0 as u32) | ((b1 as u32) << 8) | ((b2 as u32) << 16) | ((b3 as u32) << 24)
}

/// The 32-bit element of index `e` of a buffer, stored little-endian.
pub open spec fn word_at(bytes: Seq<u8>, e: int) -> u32 {
    compose(bytes[4 * e], bytes[4 * e + 1], bytes[4 * e + 2], bytes[4 * e + 3])
}

/// The buffer after element `e` has been overwritten with `w`.
pub open spec fn with_word(bytes: Seq<u8>, e: int, w: u32) -> Seq<u8> {
    bytes.update(4 * e, byte_of(w, 0)).update(4 * e + 1, byte_of(w, 1)).update(
        4 * e + 2,
        byte_of(w, 2),
    ).update(4 * e + 3, byte_of(w, 3))
}

/// The buffer that holds exactly the given elements, in order.
pub open spec fn encode(words: Seq<u32>) -> Seq<u8> {
    Seq::new(4 * words.len(), |k: int| byte_of(words[k / 4], k % 4))
}

/// The buffer after the elements from index `start` on have been
/// overwritten with `words`.
pub open spec fn overwritten(bytes: Seq<u8>, start: int, words: Seq<u32>) -> Seq<u8> {
    Seq::new(
        bytes.len(),
        |k: int|
            if 4 * start <= k < 4 * (start + words.len()) {
                byte_of(words[k / 4 - start], k % 4)
            } else {
                bytes[k]
            },
    )
}

/// A buffer of `n` zero bytes.
pub open spec fn zeroed(n: nat) -> Seq<u8> {
    Seq::new(n, |k: int| 0u8)
}

pub proof fn lemma_compose_bytes(w: u32)
    ensures
        compose(byte_of(w, 0), byte_of(w, 1), byte_of(w, 2), byte_of(w, 3)) == w,
{
    assert(((w & 0xff) as u8 as u32) | ((((w >> 8) & 0xff) as u8 as u32) << 8) | ((((w >> 16)
        & 0xff) as u8 as u32) << 16) | ((((w >> 24) & 0xff) as u8 as u32) << 24) == w)
        by (bit_vector);
}

pub proof fn lemma_byte_ranges(w: u32)
    ensures
        (w & 0xff) < 256,
        ((w >> 8) & 0xff) < 256,
        ((w >> 16) & 0xff) < 256,
        ((w >> 24) & 0xff) < 256,
{
    assert((w & 0xff) < 256 && ((w >> 8) & 0xff) < 256 && ((w >> 16) & 0xff) < 256 && ((w >> 24)
        & 0xff) < 256) by (bit_vector);
}

pub proof fn lemma_compose_zero()
    ensures
        compose(0, 0, 0, 0) == 0,
{
    assert((0u8 as u32) | ((0u8 as u32) << 8) | ((0u8 as u32) << 16) | ((0u8 as u32) << 24) == 0)
        by (bit_vector);
}

/// Reading back an element that was just written gives the written word, and
/// every other element is untouched.
pub proof fn lemma_with_word(bytes: Seq<u8>, e: int, w: u32, other: int)
    requires
        0 <= e,
        4 * e + 4 <= bytes.len(),
        0 <= other,
        4 * other + 4 <= bytes.len(),
    ensures
        with_word(bytes, e, w).len() == bytes.len(),
        word_at(with_word(bytes, e, w), e) == w,
        other != e ==> word_at(with_word(bytes, e, w), other) == word_at(bytes, other),
{
    lemma_compose_bytes(w);
}

pub proof fn lemma_encode(words: Seq<u32>, e: int)
    requires
        0 <= e < words.len(),
    ensures
        encode(words).len() == 4 * words.len(),
        word_at(encode(words), e) == words[e],
{
    lemma_compose_bytes(words[e]);
}

/// An element of an overwritten buffer is the word written over it, or the
/// element that was there.
pub proof fn lemma_overwritten(bytes: Seq<u8>, start: int, words: Seq<u32>, e: int)
    requires
        0 <= start,
        0 <= e,
        4 * e + 4 <= bytes.len(),
    ensures
        overwritten(bytes, start, words).len() == bytes.len(),
        start <= e < start + words.len() ==> word_at(overwritten(bytes, start, words), e)
            == words[e - start],
        !(start <= e < start + words.len()) ==> word_at(overwritten(bytes, start, words), e)
            == word_at(bytes, e),
{
    if start <= e < start + words.len() {
        lemma_compose_bytes(words[e - start]);
    }
}

/// Writing one more element after those already overwritten.
pub proof fn lemma_overwritten_push(bytes: Seq<u8>, start: int, words: Seq<u32>, w: u32)
    requires
        0 <= start,
        4 * (start + words.len()) + 4 <= bytes.len(),
    ensures
        with_word(overwritten(bytes, start, words), start + words.len(), w) == overwritten(
            bytes,
            start,
            words.push(w),
        ),
{
    let a = with_word(overwritten(bytes, start, words), start + words.len(), w);
    let b = overwritten(bytes, start, words.push(w));
    assert(a.len() == b.len());
    assert forall|k: int| 0 <= k < a.len() implies a[k] == b[k] by {
        if 4 * start <= k < 4 * (start + words.len()) {
            assert(words.push(w)[k / 4 - start] == words[k / 4 - start]);
        }
    }
    assert(a =~= b);
}

pub proof fn lemma_zeroed(n: nat, e: int)
    requires
        0 <= e,
        4 * e + 4 <= n,
    ensures
        word_at(zeroed(n), e) == 0,
{
    lemma_compose_zero();
}

/// A fixed-size byte buffer. It knows nothing of element types or shapes.
pub struct Storage {
    bytes: Vec<u8>,
}

impl View for Storage {
    type V = Seq<u8>;

    closed spec fn view(&self) -> Seq<u8> {
        self.bytes@
    }
}

impl Storage {
    /// The size of a buffer fits a machine word.
    pub proof fn lemma_bounded(&self)
        ensures
            self@.len() <= usize::MAX,
    {
        assert(self.bytes@.len() == self.bytes.len());
    }

    /// A buffer of `size_bytes` zero bytes. A size of zero is legal.
    pub fn new(size_bytes: usize) -> (s: Storage)
        ensures
            s@ == zeroed(size_bytes as nat),
    {
        let bytes: Vec<u8> = vec![0u8; size_bytes];
        proof {
            assert(bytes@ =~= zeroed(size_bytes as nat));
        }
        Storage { bytes }
    }

    /// A buffer that holds the given bytes.
    pub fn from_bytes(bytes: Vec<u8>) -> (s: Storage)
        ensures
            s@ == bytes@,
    {
        Storage { bytes }
    }

    /// A buffer that holds the given 32-bit elements, little-endian.
    pub fn from_words(words: &Vec<u32>) -> (s: Storage)
        requires
            4 * words.len() <= usize::MAX,
        ensures
            s@ == encode(words@),
    {
        let n: usize = words.len();
        let mut bytes: Vec<u8> = Vec::with_capacity(4 * n);
        let mut i: usize = 0;
        while i < n
            invariant
                i <= n,
                n == words.len(),
                4 * n <= usize::MAX,
                bytes@ == encode(words@.take(i as int)),
            decreases n - i,
        {
            let w: u32 = words[i];
            proof {
                lemma_byte_ranges(w);
            }
            let b0: u8 = (w & 0xff) as u8;
            let b1: u8 = ((w >> 8) & 0xff) as u8;
            let b2: u8 = ((w >> 16) & 0xff) as u8;
            let b3: u8 = ((w >> 24) & 0xff) as u8;
            bytes.push(b0);
            bytes.push(b1);
            bytes.push(b2);
            bytes.push(b3);
            proof {
                assert(bytes@ =~= encode(words@.take(i + 1)));
            }
            i = i + 1;
        }
        proof {
            assert(words@.take(n as int) =~= words@);
        }
        Storage { bytes }
    }

    /// The size of the buffer in bytes.
    pub fn len(&self) -> (n: usize)
        ensures
            n == self@.len(),
    {
        self.bytes.len()
    }

    /// Whether the buffer has no bytes.
    pub fn is_empty(&self) -> (b: bool)
        ensures
            b == (self@.len() == 0),
    {
        self.bytes.len() == 0
    }

    /// The bytes of the buffer.
    pub fn as_slice(&self) -> (bytes: &[u8])
        ensures
            bytes@ == self@,
    {
        self.bytes.as_slice()
    }

    /// The bytes of the buffer, for writing in place. The size cannot change.
    pub fn as_mut_slice(&mut self) -> (bytes: &mut [u8])
        ensures
            bytes@ == old(self)@,
            final(bytes)@ == final(self)@,
    {
        self.bytes.as_mut_slice()
    }

    /// The byte at `index`.
    pub fn byte(&self, index: usize) -> (b: u8)
        requires
            index < self@.len(),
        ensures
            b == self@[index as int],
    {
        self.bytes[index]
    }

    /// The 32-bit element of index `e`.
    pub fn word(&self, e: usize) -> (w: u32)
        requires
            4 * e + 4 <= self@.len(),
        ensures
            w == word_at(self@, e as int),
    {
        proof {
            self.lemma_bounded();
        }
        let b0: u8 = self.bytes[4 * e];
        let b1: u8 = self.bytes[4 * e + 1];
        let b2: u8 = self.bytes[4 * e + 2];
        let b3: u8 = self.bytes[4 * e + 3];
        (b0 as u32) | ((b1 as u32) << 8) | ((b2 as u32) << 16) | ((b3 as u32) << 24)
    }

    /// Overwrites the 32-bit element of index `e`.
    pub fn set_word(&mut self, e: usize, w: u32)
        requires
            4 * e + 4 <= old(self)@.len(),
        ensures
            final(self)@ == with_word(old(self)@, e as int, w),
            final(self)@.len() == old(self)@.len(),
    {
        proof {
            self.lemma_bounded();
            lemma_byte_ranges(w);
        }
        self.bytes[4 * e] = (w & 0xff) as u8;
        self.bytes[4 * e + 1] = ((w >> 8) & 0xff) as u8;
        self.bytes[4 * e + 2] = ((w >> 16) & 0xff) as u8;
        self.bytes[4 * e + 3] = ((w >> 24) & 0xff) as u8;
    }
}

/// Issues the next identifier of a runtime. No two calls on one runtime
/// return the same identifier, and none returns that of a tensor made
/// before or after.
pub fn next_uid<A: Fn(ScalarOp) -> u32>(rt: &mut Runtime<A>) -> (id: usize)
    requires
        old(rt)@.wf(),
    ensures
        id == old(rt)@.len(),
        final(rt)@ == old(rt)@.with_entry(None),
        final(rt)@.wf(),
        final(rt)@.grows_from(old(rt)@),
{
    proof {
        lemma_with_entry(rt@, None);
    }
    rt.push_entry(None)
}

} // verus!
