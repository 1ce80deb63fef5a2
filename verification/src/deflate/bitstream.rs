use vstd::prelude::*;
use std::collections::VecDeque;
use crate::reader::ByteReader;

verus! {

/// Number of bytes needed to hold `n` bits.
pub open spec fn byte_count(n: nat) -> nat {
    (n + 7) / 8
}

/// Bit `k` (0 is the least significant) of `b`.
pub open spec fn bit_at(b: u8, k: int) -> bool {
    (b >> (k as u8)) & 1 == 1
}

/// What `bit` reports for position `k` of a byte: the byte shifted right by `k`
/// must equal exactly 1, that is bit `k` is set and every bit above it is clear.
pub open spec fn reads_as_one(b: u8, k: int) -> bool {
    (b >> (k as u8)) == 1
}

/// The byte that `set_bit` leaves behind: bit `k` of `b` cleared, then or-ed with `value`.
pub open spec fn with_bit(b: u8, k: int, value: bool) -> u8 {
    (b & !(1u8 << (k as u8))) | ((if value { 1u8 } else { 0u8 }) << (k as u8))
}

/// Writing bit `k` sets that bit to `value` and keeps the other seven.
pub proof fn lemma_with_bit(b: u8, k: int, j: int, value: bool)
    requires
        0 <= k < 8,
        0 <= j < 8,
    ensures
        bit_at(with_bit(b, k, value), j) == if j == k { value } else { bit_at(b, j) },
{
    let kk = k as u8;
    let jj = j as u8;
    let v: u8 = if value { 1u8 } else { 0u8 };
    assert(kk < 8 && jj < 8 && v <= 1 ==> (((b & !(1u8 << kk)) | (v << kk)) >> jj) & 1 == if jj == kk {
        v
    } else {
        (b >> jj) & 1
    }) by (bit_vector);
}

/// `bit` reads back what `set_bit` wrote, as long as no higher bit of the same
/// byte is set (otherwise the shifted byte exceeds 1 and `bit` answers false).
pub proof fn law_bit_reads_back_set_bit(b: u8, k: int, value: bool)
    requires
        0 <= k < 8,
        b >> (k as u8) <= 1,
    ensures
        reads_as_one(with_bit(b, k, value), k) == value,
{
    let kk = k as u8;
    let v: u8 = if value { 1u8 } else { 0u8 };
    assert(kk < 8 && v <= 1 && b >> kk <= 1 ==> ((((b & !(1u8 << kk)) | (v << kk)) >> kk) == 1) == (v
        == 1)) by (bit_vector);
}

/// The character that shows a bit: `'1'` or `'0'`.
pub open spec fn digit(b: bool) -> char {
    if b {
        '1'
    } else {
        '0'
    }
}

/// The digits of `bits` in groups of eight, followed by the group of the
/// remaining (fewer than eight, possibly no) digits.
pub open spec fn digit_groups(bits: Seq<bool>) -> Seq<Seq<char>> {
    Seq::new(
        bits.len() / 8 + 1,
        |g: int|
            Seq::new(
                if g < bits.len() / 8 {
                    8
                } else {
                    (bits.len() % 8) as nat
                },
                |j: int| digit(bits[8 * g + j]),
            ),
    )
}

fn group_digits(bits: &Vec<bool>) -> (r: Vec<Vec<char>>)
    ensures
        r@.len() == digit_groups(bits@).len(),
        forall|g: int| 0 <= g < r@.len() ==> #[trigger] r@[g]@ == digit_groups(bits@)[g],
{
    let n = bits.len();
    let mut groups: Vec<Vec<char>> = Vec::new();
    let mut current: Vec<char> = Vec::new();
    let mut i: usize = 0;
    while i < n
        invariant
            n == bits@.len(),
            i <= n,
            groups@.len() == i / 8,
            current@.len() == i % 8,
            forall|g: int| 0 <= g < groups@.len() ==> #[trigger] groups@[g]@ == digit_groups(bits@)[g],
            forall|j: int| 0 <= j < current@.len() ==> current@[j] == digit(bits@[8 * (i / 8) + j]),
        decreases n - i,
    {
        let c = if bits[i] { '1' } else { '0' };
        current.push(c);
        i = i + 1;
        if i % 8 == 0 {
            proof {
                let g = (i / 8 - 1) as int;
                assert(current@ =~= digit_groups(bits@)[g]);
            }
            groups.push(current);
            current = Vec::new();
        }
    }
    proof {
        assert(current@ =~= digit_groups(bits@)[(n / 8) as int]);
    }
    groups.push(current);
    groups
}

/// A byte-backed set of `N` bits; bit `i` lives in bit `i % 8` of byte `i / 8`.
pub struct Bits<const N: usize> {
    inner: Vec<u8>,
}

impl<const N: usize> View for Bits<N> {
    type V = Seq<u8>;

    closed spec fn view(&self) -> Seq<u8> {
        self.inner@
    }
}

impl<const N: usize> Bits<N> {
    /// All `N` bits clear.
    pub fn new() -> (r: Bits<N>)
        ensures
            r@ == Seq::new(byte_count(N as nat), |i: int| 0u8),
    {
        let bytes: usize = N / 8 + if N % 8 == 0 { 0 } else { 1 };
        let inner: Vec<u8> = vec![0u8; bytes];
        let r = Bits { inner };
        assert(r@ =~= Seq::new(byte_count(N as nat), |i: int| 0u8));
        r
    }

    /// The bytes that hold the bits.
    pub fn inner(&self) -> (r: &Vec<u8>)
        ensures
            r@ == self@,
    {
        &self.inner
    }

    /// Whether byte `index / 8` shifted right by `index % 8` is exactly 1.
    ///
    /// This is true when bit `index` is set and no higher bit of the same byte is.
    pub fn bit(&self, index: usize) -> (r: bool)
        requires
            index / 8 < self@.len(),
        ensures
            r == reads_as_one(self@[index as int / 8], index as int % 8),
    {
        let byte_index = index / 8;
        let byte = self.inner[byte_index];
        (byte >> ((index % 8) as u8)) == 1
    }

    /// Sets bit `index` to `value`.
    pub fn set_bit(&mut self, index: usize, value: bool)
        requires
            index / 8 < old(self)@.len(),
        ensures
            final(self)@ == old(self)@.update(
                index as int / 8,
                with_bit(old(self)@[index as int / 8], index as int % 8, value),
            ),
    {
        let i = index / 8;
        let k = (index % 8) as u8;
        // set bit to 0
        let cleared = self.inner[i] & !(1u8 << k);
        // then or with `value`
        let v: u8 = if value { 1 } else { 0 };
        self.inner.set(i, cleared | (v << k));
    }

    /// `bit(i)` for each `i` below `N`, in order.
    pub fn to_bools(&self) -> (r: Vec<bool>)
        requires
            self@.len() == byte_count(N as nat),
        ensures
            r@.len() == N,
            forall|i: int| 0 <= i < N ==> r@[i] == reads_as_one(self@[i / 8], i % 8),
    {
        let mut out: Vec<bool> = Vec::new();
        for i in 0..N
            invariant
                out@.len() == i,
                self@.len() == byte_count(N as nat),
                forall|j: int| 0 <= j < i ==> out@[j] == reads_as_one(self@[j / 8], j % 8),
        {
            out.push(self.bit(i));
        }
        out
    }
}

impl<const N: usize> Bits<N> {
    /// What the debug form lists: the digits of `to_bools()` in groups of
    /// eight, then the remaining ones.
    pub fn debug_groups(&self) -> (r: Vec<Vec<char>>)
        requires
            self@.len() == byte_count(N as nat),
        ensures
            r@.len() == N / 8 + 1,
            forall|g: int| 0 <= g < r@.len() ==> #[trigger] r@[g]@ == digit_groups(
                Seq::new(N as nat, |i: int| reads_as_one(self@[i / 8], i % 8)),
            )[g],
    {
        let bits = self.to_bools();
        proof {
            assert(bits@ =~= Seq::new(N as nat, |i: int| reads_as_one(self@[i / 8], i % 8)));
        }
        group_digits(&bits)
    }
}

/// A growable sequence of bits stored eight to a byte, least significant bit first.
pub struct BitVector {
    inner: Vec<u8>,
    len: usize,
}

impl BitVector {
    /// The length stays within the bytes held, and eight times their number fits in a `usize`.
    pub closed spec fn wf(&self) -> bool {
        &&& self.len <= 8 * self.inner@.len()
        &&& 8 * self.inner@.len() <= usize::MAX
    }

    /// The bytes that hold the bits, including any not yet counted by `len`.
    pub closed spec fn bytes(&self) -> Seq<u8> {
        self.inner@
    }

    /// The number of bits pushed and not popped.
    pub closed spec fn length(&self) -> nat {
        self.len as nat
    }

    /// The first `length()` stored bits, in order.
    pub open spec fn bits(&self) -> Seq<bool> {
        Seq::new(self.length(), |i: int| bit_at(self.bytes()[i / 8], i % 8))
    }

    /// An empty vector.
    pub fn new() -> (r: BitVector)
        ensures
            r.wf(),
            r.bytes() == Seq::<u8>::empty(),
            r.length() == 0,
    {
        BitVector { inner: Vec::new(), len: 0 }
    }

    /// An empty vector whose byte storage is reserved for `cap` bits.
    pub fn with_capacity(cap: usize) -> (r: BitVector)
        ensures
            r.wf(),
            r.bytes() == Seq::<u8>::empty(),
            r.length() == 0,
    {
        let bytes: usize = cap / 8 + if cap % 8 == 0 { 0 } else { 1 };
        BitVector { inner: Vec::with_capacity(bytes), len: 0 }
    }

    /// The bytes that hold the bits.
    pub fn inner(&self) -> (r: &Vec<u8>)
        ensures
            r@ == self.bytes(),
    {
        &self.inner
    }

    /// The number of bits pushed and not popped.
    pub fn len(&self) -> (r: usize)
        ensures
            r == self.length(),
    {
        self.len
    }

    /// Eight times the number of bytes held.
    pub fn capacity(&self) -> (r: usize)
        requires
            self.wf(),
        ensures
            r == 8 * self.bytes().len(),
    {
        8 * self.inner.len()
    }

    /// `None` when `index <= len()`; otherwise whether byte `index / 8` shifted
    /// right by `index % 8` is exactly 1.
    pub fn bit(&self, index: usize) -> (r: Option<bool>)
        requires
            index <= self.length() || index / 8 < self.bytes().len(),
        ensures
            index <= self.length() ==> r is None,
            index > self.length() ==> r == Some(reads_as_one(self.bytes()[index as int / 8], index as int % 8)),
    {
        if self.len() >= index {
            return None;
        }
        let byte_index = index / 8;
        let byte = self.inner[byte_index];
        Some((byte >> ((index % 8) as u8)) == 1)
    }

    /// Does nothing when `index <= len()`; otherwise sets bit `index` of the
    /// storage to `value`.
    pub fn set_bit(&mut self, index: usize, value: bool)
        requires
            index <= old(self).length() || index / 8 < old(self).bytes().len(),
        ensures
            final(self).length() == old(self).length(),
            old(self).wf() ==> final(self).wf(),
            index <= old(self).length() ==> final(self).bytes() == old(self).bytes(),
            index > old(self).length() ==> final(self).bytes() == old(self).bytes().update(
                index as int / 8,
                with_bit(old(self).bytes()[index as int / 8], index as int % 8, value),
            ),
    {
        if self.len() >= index {
            return;
        }
        let i = index / 8;
        let k = (index % 8) as u8;
        // set bit to 0
        let cleared = self.inner[i] & !(1u8 << k);
        // then or with `value`
        let v: u8 = if value { 1 } else { 0 };
        self.inner.set(i, cleared | (v << k));
    }

    fn expand(&mut self)
        requires
            8 * (old(self).bytes().len() + 1) <= usize::MAX,
        ensures
            final(self).bytes() == old(self).bytes().push(0u8),
            final(self).length() == old(self).length(),
    {
        self.inner.push(0);
    }

    /// Appends `value` as bit number `len()`, adding a zero byte first when the
    /// storage is full.
    pub fn push(&mut self, value: bool)
        requires
            old(self).wf(),
            old(self).length() + 8 <= usize::MAX,
        ensures
            final(self).wf(),
            final(self).length() == old(self).length() + 1,
            final(self).bits() == old(self).bits().push(value),
            final(self).bytes() == ({
                let grown = if old(self).length() == 8 * old(self).bytes().len() {
                    old(self).bytes().push(0u8)
                } else {
                    old(self).bytes()
                };
                let i = old(self).length() as int;
                grown.update(i / 8, with_bit(grown[i / 8], i % 8, value))
            }),
    {
        if self.len() >= self.capacity() {
            self.expand();
        }
        let index = self.len();
        let i = index / 8;
        let k = (index % 8) as u8;
        // set bit to 0
        let cleared = self.inner[i] & !(1u8 << k);
        // then or with `value`
        let v: u8 = if value { 1 } else { 0 };
        self.inner.set(i, cleared | (v << k));
        self.len = self.len + 1;
        proof {
            let ghost old_bits = old(self).bits();
            assert forall|j: int| 0 <= j < self.len implies #[trigger] self.bits()[j] == old_bits.push(value)[j] by {
                lemma_with_bit(self.inner@[j / 8], k as int, j % 8, value);
                if j / 8 == i as int {
                    lemma_with_bit(old(self).bytes().push(0u8)[j / 8], k as int, j % 8, value);
                    lemma_with_bit(old(self).bytes()[j / 8], k as int, j % 8, value);
                }
            }
            assert(self.bits() =~= old_bits.push(value));
        }
    }

    /// Drops the last bit from the count and returns `None`: the lookup it makes
    /// with `bit(len() - 1)` always falls in the range where `bit` answers `None`.
    pub fn pop(&mut self) -> (r: Option<bool>)
        requires
            old(self).length() > 0,
        ensures
            r is None,
            old(self).wf() ==> final(self).wf(),
            final(self).length() == old(self).length() - 1,
            final(self).bits() == old(self).bits().drop_last(),
            final(self).bytes() == old(self).bytes(),
    {
        let bit = self.bit(self.len() - 1);
        if self.len() > 0 {
            self.len = self.len - 1;
        }
        assert(self.bits() =~= old(self).bits().drop_last());
        bit
    }

    /// `bit(i)` for `i` from 0 while it answers `Some`; as `bit(0)` answers
    /// `None`, this is always empty.
    pub fn to_bools(&self) -> (r: Vec<bool>)
        requires
            self.wf(),
        ensures
            r@ == Seq::<bool>::empty(),
    {
        let mut out: Vec<bool> = Vec::with_capacity(self.capacity());
        let mut i: usize = 0;
        while i < self.len()
            invariant
                i <= self.length(),
                self.wf(),
                out@ == Seq::<bool>::empty(),
            decreases self.length() - i,
        {
            match self.bit(i) {
                Some(bit) => out.push(bit),
                None => break,
            }
            i = i + 1;
        }
        out
    }

    /// What the debug form lists: the digits of `to_bools()` in groups of
    /// eight, then the remaining ones; as `to_bools()` is empty, that is one
    /// empty group.
    pub fn debug_groups(&self) -> (r: Vec<Vec<char>>)
        requires
            self.wf(),
        ensures
            r@.len() == 1,
            r@[0]@ == Seq::<char>::empty(),
    {
        let bits = self.to_bools();
        let r = group_digits(&bits);
        proof {
            assert(r@[0]@ =~= digit_groups(bits@)[0]);
        }
        r
    }
}

/// The eight bits of `b`, most significant first.
pub open spec fn byte_bits(b: u8) -> Seq<bool> {
    Seq::new(8, |j: int| bit_at(b, 7 - j))
}

/// The bits of `bytes`, byte after byte, each most significant bit first.
pub open spec fn stream_bits(bytes: Seq<u8>) -> Seq<bool> {
    Seq::new(8 * bytes.len(), |i: int| bit_at(bytes[i / 8], 7 - i % 8))
}

/// How many bytes a stream holding `pending` buffered bits reads from its
/// source to hand out `wanted` bits.
pub open spec fn bytes_needed(pending: nat, wanted: nat) -> nat {
    if wanted <= pending {
        0
    } else {
        ((wanted - pending + 7) / 8) as nat
    }
}

/// The bytes of `Bits<n>` filled from the first `n` of `bits`: bit `i` set exactly
/// when `i < n` and `bits[i]`.
pub open spec fn packs(bytes: Seq<u8>, bits: Seq<bool>, n: nat) -> bool {
    &&& bytes.len() == byte_count(n)
    &&& forall|i: int| 0 <= i < 8 * bytes.len() ==> bit_at(#[trigger] bytes[i / 8], i % 8) == (i < n && bits[i])
}

/// The bits of two byte strings read one after the other are the bits of the
/// first followed by the bits of the second: bytes are never split.
pub proof fn law_stream_bits_append(a: Seq<u8>, b: Seq<u8>)
    ensures
        stream_bits(a + b) == stream_bits(a) + stream_bits(b),
{
    let l = stream_bits(a + b);
    let r = stream_bits(a) + stream_bits(b);
    assert forall|i: int| 0 <= i < l.len() implies l[i] == r[i] by {
        if i >= 8 * a.len() {
            let k = i - 8 * a.len();
            assert(k / 8 == i / 8 - a.len()) by (nonlinear_arith)
                requires k == i - 8 * a.len(), k >= 0;
            assert(k % 8 == i % 8) by (nonlinear_arith)
                requires k == i - 8 * a.len(), k >= 0;
            assert((a + b)[i / 8] == b[k / 8]);
        } else {
            assert(i / 8 < a.len());
            assert((a + b)[i / 8] == a[i / 8]);
        }
    }
    assert(l =~= r);
}

/// Popping after a push gives back the bits held before it.
pub proof fn law_pop_undoes_push(before: BitVector, pushed: BitVector, popped: BitVector, value: bool)
    requires
        pushed.bits() == before.bits().push(value),
        popped.bits() == pushed.bits().drop_last(),
    ensures
        popped.bits() == before.bits(),
{
    assert(before.bits().push(value).drop_last() =~= before.bits());
}

proof fn lemma_stream_bits_first(bytes: Seq<u8>)
    requires
        bytes.len() > 0,
    ensures
        stream_bits(bytes) == byte_bits(bytes[0]) + stream_bits(bytes.drop_first()),
{
    let l = stream_bits(bytes);
    let r = byte_bits(bytes[0]) + stream_bits(bytes.drop_first());
    assert forall|i: int| 0 <= i < l.len() implies l[i] == r[i] by {
        if i >= 8 {
            assert((i - 8) / 8 == i / 8 - 1);
            assert((i - 8) % 8 == i % 8);
        } else {
            assert(i / 8 == 0);
            assert(i % 8 == i);
        }
    }
    assert(l =~= r);
}

proof fn lemma_bytes_needed_step(p: nat, i: nat)
    requires
        p + 8 * bytes_needed(p, i) >= i,
    ensures
        p + 8 * bytes_needed(p, i) > i ==> bytes_needed(p, i + 1) == bytes_needed(p, i),
        p + 8 * bytes_needed(p, i) == i ==> bytes_needed(p, i + 1) == bytes_needed(p, i) + 1,
{
    if i >= p {
        let d = (i - p) as int;
        assert((d + 7) / 8 * 8 <= d + 7) by (nonlinear_arith);
        assert((d + 7) / 8 * 8 > d - 1) by (nonlinear_arith);
        if p + 8 * bytes_needed(p, i) == i {
            assert((d + 8) / 8 == (d + 7) / 8 + 1) by (nonlinear_arith)
                requires d == (d + 7) / 8 * 8;
        } else {
            assert((d + 8) / 8 == (d + 7) / 8) by (nonlinear_arith)
                requires d < (d + 7) / 8 * 8, (d + 7) / 8 * 8 <= d + 7;
        }
    }
}

/// Reads the bits of a byte source, most significant bit of each byte first.
///
/// Whole bytes are taken from the source; the bits of a byte not handed out yet
/// wait in a buffer, so the source always stands on a byte boundary.
pub struct BitStream {
    inner: ByteReader,
    // bits from a half-consumed byte
    bit_buf: VecDeque<bool>,
}

impl BitStream {
    /// The buffered bits of the byte read last, next first.
    pub closed spec fn pending(&self) -> Seq<bool> {
        self.bit_buf@
    }

    /// The bytes the source has not handed over yet.
    pub closed spec fn source(&self) -> Seq<u8> {
        self.inner@
    }

    /// Every bit the stream can still hand out, in order.
    pub open spec fn available(&self) -> Seq<bool> {
        self.pending() + stream_bits(self.source())
    }

    /// A stream over `read_buffer` with no bits buffered.
    pub fn new(read_buffer: ByteReader) -> (r: BitStream)
        ensures
            r.pending() == Seq::<bool>::empty(),
            r.source() == read_buffer@,
    {
        BitStream { inner: read_buffer, bit_buf: VecDeque::with_capacity(8) }
    }

    /// The byte source, standing after the last byte the stream has read.
    pub fn into_inner(&mut self) -> (r: &mut ByteReader)
        ensures
            r@ == old(self).source(),
            final(self).source() == final(r)@,
            final(self).pending() == old(self).pending(),
    {
        &mut self.inner
    }

    fn next(&mut self) -> (r: Option<bool>)
        ensures
            old(self).available().len() == 0 ==> r is None && final(self).pending() == old(self).pending()
                && final(self).source() == old(self).source(),
            old(self).available().len() > 0 ==> r == Some(old(self).available()[0])
                && final(self).available() == old(self).available().drop_first(),
            old(self).pending().len() > 0 ==> final(self).source() == old(self).source()
                && final(self).pending() == old(self).pending().drop_first(),
            old(self).pending().len() == 0 && old(self).source().len() > 0 ==> final(self).source()
                == old(self).source().drop_first() && final(self).pending().len() == 7,
    {
        if let Some(bit) = self.bit_buf.pop_front() {
            proof {
                assert(old(self).available().drop_first() =~= self.available());
            }
            return Some(bit);
        }
        // push next byte into bit buf
        let mut byte: Vec<u8> = vec![0u8; 1];
        if self.inner.read_exact(&mut byte).is_err() {
            return None;
        }
        let b = byte[0];
        proof {
            assert(old(self).source()[0] == b);
            lemma_stream_bits_first(old(self).source());
            assert(self.source() =~= old(self).source().drop_first());
        }
        // most significant bit first, so they are the right way around
        let mut k: u8 = 0;
        while k < 8
            invariant
                k <= 8,
                self.bit_buf@ == byte_bits(b).take(k as int),
                self.inner@ == old(self).source().drop_first(),
            decreases 8 - k,
        {
            self.bit_buf.push_back(((b >> (7 - k)) & 1) == 1);
            k = k + 1;
            proof {
                assert(self.bit_buf@ =~= byte_bits(b).take(k as int));
            }
        }
        let r = self.bit_buf.pop_front();
        proof {
            assert(self.pending() =~= byte_bits(b).drop_first());
            assert(self.available() =~= old(self).available().drop_first());
        }
        r
    }

    /// Hands out the next `M` bits as a `Bits<M>`, bit `i` of the result being
    /// the `i`-th bit handed out.
    pub fn read_bits<const M: usize>(&mut self) -> (out: Bits<M>)
        requires
            old(self).available().len() >= M,
        ensures
            packs(out@, old(self).available(), M as nat),
            final(self).available() == old(self).available().skip(M as int),
            final(self).source() == old(self).source().skip(
                bytes_needed(old(self).pending().len(), M as nat) as int,
            ),
            final(self).pending().len() == old(self).pending().len() + 8 * bytes_needed(
                old(self).pending().len(),
                M as nat,
            ) - M,
    {
        let ghost a0 = self.available();
        let ghost p0 = self.pending().len();
        let ghost s0 = self.source();
        let mut out: Bits<M> = Bits::new();
        proof {
            assert(a0.skip(0) =~= a0);
            assert(s0.skip(0) =~= s0);
            assert forall|j: int| 0 <= j < 8 * out@.len() implies !bit_at(#[trigger] out@[j / 8], j % 8) by {
                let jj = (j % 8) as u8;
                assert((0u8 >> jj) & 1 == 0) by (bit_vector);
            }
        }
        for i in 0..M
            invariant
                a0.len() >= M,
                p0 == old(self).pending().len(),
                s0 == old(self).source(),
                a0 == old(self).available(),
                self.available() == a0.skip(i as int),
                self.source() == s0.skip(bytes_needed(p0, i as nat) as int),
                self.pending().len() == p0 + 8 * bytes_needed(p0, i as nat) - i,
                p0 + 8 * bytes_needed(p0, i as nat) >= i,
                out@.len() == byte_count(M as nat),
                forall|j: int|
                    0 <= j < 8 * out@.len() ==> bit_at(#[trigger] out@[j / 8], j % 8) == (j < i && a0[j]),
        {
            proof {
                lemma_bytes_needed_step(p0, i as nat);
                assert(self.available()[0] == a0[i as int]);
            }
            let next_bit = self.next().expect("REACHED END OF STREAM");
            let ghost before = out@;
            out.set_bit(i, next_bit);
            proof {
                assert(self.available() =~= a0.skip(i + 1));
                if self.source() != s0.skip(bytes_needed(p0, i as nat) as int) {
                    assert(self.source() =~= s0.skip(bytes_needed(p0, (i + 1) as nat) as int));
                }
                assert forall|j: int| 0 <= j < 8 * out@.len() implies bit_at(
                    #[trigger] out@[j / 8],
                    j % 8,
                ) == (j < i + 1 && a0[j]) by {
                    lemma_with_bit(before[i as int / 8], i as int % 8, j % 8, next_bit);
                    if j / 8 == i as int / 8 {
                        assert(j == i as int <==> j % 8 == i as int % 8);
                    } else {
                        assert(out@[j / 8] == before[j / 8]);
                        assert(j != i);
                    }
                }
            }
        }
        out
    }

    /// Hands out the next `num_bits` bits, pushed one by one onto a new `BitVector`.
    pub fn read_n_bits(&mut self, num_bits: usize) -> (out: BitVector)
        requires
            old(self).available().len() >= num_bits,
            num_bits + 8 <= usize::MAX,
        ensures
            out.wf(),
            out.bits() == old(self).available().take(num_bits as int),
            packs(out.bytes(), old(self).available(), num_bits as nat),
            final(self).available() == old(self).available().skip(num_bits as int),
            final(self).source() == old(self).source().skip(
                bytes_needed(old(self).pending().len(), num_bits as nat) as int,
            ),
            final(self).pending().len() == old(self).pending().len() + 8 * bytes_needed(
                old(self).pending().len(),
                num_bits as nat,
            ) - num_bits,
    {
        let ghost a0 = self.available();
        let ghost p0 = self.pending().len();
        let ghost s0 = self.source();
        let mut out: BitVector = BitVector::with_capacity(num_bits);
        proof {
            assert(a0.skip(0) =~= a0);
            assert(s0.skip(0) =~= s0);
        }
        for i in 0..num_bits
            invariant
                a0.len() >= num_bits,
                num_bits + 8 <= usize::MAX,
                p0 == old(self).pending().len(),
                s0 == old(self).source(),
                a0 == old(self).available(),
                self.available() == a0.skip(i as int),
                self.source() == s0.skip(bytes_needed(p0, i as nat) as int),
                self.pending().len() == p0 + 8 * bytes_needed(p0, i as nat) - i,
                p0 + 8 * bytes_needed(p0, i as nat) >= i,
                out.wf(),
                out.length() == i,
                out.bits() == a0.take(i as int),
                packs(out.bytes(), a0, i as nat),
        {
            proof {
                lemma_bytes_needed_step(p0, i as nat);
                assert(self.available()[0] == a0[i as int]);
            }
            let next_bit = self.next().expect("REACHED END OF STREAM");
            let ghost before = out.bytes();
            out.push(next_bit);
            proof {
                assert(self.available() =~= a0.skip(i + 1));
                if self.source() != s0.skip(bytes_needed(p0, i as nat) as int) {
                    assert(self.source() =~= s0.skip(bytes_needed(p0, (i + 1) as nat) as int));
                }
                assert(out.bits() =~= a0.take(i + 1));
                let grown = if i == 8 * before.len() { before.push(0u8) } else { before };
                assert forall|j: int| 0 <= j < 8 * out.bytes().len() implies bit_at(
                    #[trigger] out.bytes()[j / 8],
                    j % 8,
                ) == (j < i + 1 && a0[j]) by {
                    lemma_with_bit(grown[i as int / 8], i as int % 8, j % 8, next_bit);
                    if j / 8 == i as int / 8 {
                        assert(j == i as int <==> j % 8 == i as int % 8);
                        if j / 8 == before.len() {
                            assert(bit_at(0u8, j % 8) == false) by {
                                let jj = (j % 8) as u8;
                                assert((0u8 >> jj) & 1 == 0) by (bit_vector);
                            }
                        }
                    } else {
                        assert(out.bytes()[j / 8] == grown[j / 8]);
                        assert(j != i);
                    }
                }
            }
        }
        out
    }
}

} // verus!
