use vstd::prelude::*;

verus! {

/// Returned by [`ByteReader::read_exact`] when fewer bytes remain than were asked for.
#[derive(Debug, Clone, Copy, PartialEq, Eq, Structural)]
pub struct UnexpectedEof;

/// A cursor over the bytes of a gzip file held in memory.
///
/// The parsers of this crate consume bytes from the front of it, the way the
/// gzip format is laid out: header, optional fields, compressed blocks, trailer.
pub struct ByteReader {
    data: Vec<u8>,
    pos: usize,
}

impl View for ByteReader {
    /// The bytes that have not been consumed yet.
    type V = Seq<u8>;

    closed spec fn view(&self) -> Seq<u8> {
        self.data@.subrange(self.pos as int, self.data@.len() as int)
    }
}

/// Number of bytes that `read_until(delim)` takes from the front of `s`:
/// everything up to and including the first `delim`, or all of `s` when `delim`
/// does not occur.
pub open spec fn until_len(s: Seq<u8>, delim: u8) -> nat
    decreases s.len(),
{
    if s.len() == 0 {
        0
    } else if s[0] == delim {
        1
    } else {
        1 + until_len(s.drop_first(), delim)
    }
}

/// `until_len` never goes past the end, and only the last byte it takes can be the delimiter.
pub proof fn lemma_until_len(s: Seq<u8>, delim: u8)
    ensures
        until_len(s, delim) <= s.len(),
        forall|i: int| 0 <= i < until_len(s, delim) - 1 ==> s[i] != delim,
        until_len(s, delim) > 0 && s[until_len(s, delim) - 1] == delim
            || until_len(s, delim) == s.len() && !s.contains(delim),
    decreases s.len(),
{
    if s.len() > 0 && s[0] != delim {
        lemma_until_len(s.drop_first(), delim);
        let t = s.drop_first();
        assert forall|i: int| 0 <= i < until_len(s, delim) - 1 implies s[i] != delim by {
            if i > 0 {
                assert(s[i] == t[i - 1]);
            }
        }
        if until_len(s, delim) == s.len() && !t.contains(delim) {
            assert forall|i: int| 0 <= i < s.len() implies s[i] != delim by {
                if i > 0 {
                    assert(s[i] == t[i - 1]);
                }
            }
        }
    }
}

/// When `delim` occurs in `s`, bytes after `s` do not change how much
/// `read_until` takes.
pub proof fn lemma_until_len_append(s: Seq<u8>, t: Seq<u8>, delim: u8)
    requires
        s.contains(delim),
    ensures
        until_len(s + t, delim) == until_len(s, delim),
    decreases s.len(),
{
    assert((s + t)[0] == s[0]);
    if s[0] != delim {
        let i = choose|i: int| 0 <= i < s.len() && s[i] == delim;
        assert(s.drop_first()[i - 1] == delim);
        assert((s + t).drop_first() =~= s.drop_first() + t);
        lemma_until_len_append(s.drop_first(), t, delim);
    }
}

impl ByteReader {
    #[verifier::type_invariant]
    spec fn inv(self) -> bool {
        self.pos <= self.data.len()
    }

    /// A reader positioned at the first of `data`.
    pub fn new(data: Vec<u8>) -> (r: ByteReader)
        ensures
            r@ == data@,
    {
        let r = ByteReader { data, pos: 0 };
        assert(r@ =~= r.data@);
        r
    }

    /// Number of bytes that have not been consumed yet.
    pub fn remaining(&self) -> (n: usize)
        ensures
            n == self@.len(),
    {
        proof {
            use_type_invariant(self);
        }
        self.data.len() - self.pos
    }

    /// Fills the whole of `buf` with the next `buf.len()` bytes.
    ///
    /// When fewer bytes remain, returns `UnexpectedEof` and consumes nothing.
    pub fn read_exact(&mut self, buf: &mut Vec<u8>) -> (r: Result<(), UnexpectedEof>)
        ensures
            final(buf)@.len() == old(buf)@.len(),
            old(buf)@.len() <= old(self)@.len() ==> {
                &&& r is Ok
                &&& final(buf)@ == old(self)@.take(old(buf)@.len() as int)
                &&& final(self)@ == old(self)@.skip(old(buf)@.len() as int)
            },
            old(buf)@.len() > old(self)@.len() ==> {
                &&& r is Err
                &&& final(buf)@ == old(buf)@
                &&& final(self)@ == old(self)@
            },
    {
        proof {
            use_type_invariant(&*self);
        }
        let n = buf.len();
        if n > self.data.len() - self.pos {
            return Err(UnexpectedEof);
        }
        let ghost s0 = self@;
        let mut i: usize = 0;
        while i < n
            invariant
                0 <= i <= n,
                n == buf@.len(),
                self.pos + n <= self.data.len(),
                s0 == self.data@.subrange(self.pos as int, self.data@.len() as int),
                forall|j: int| 0 <= j < i ==> buf@[j] == s0[j],
            decreases n - i,
        {
            buf.set(i, self.data[self.pos + i]);
            i = i + 1;
        }
        self.pos = self.pos + n;
        assert(buf@ =~= s0.take(n as int));
        assert(self@ =~= s0.skip(n as int));
        Ok(())
    }

    /// Appends to `buf` every byte up to and including the first `delim`, or every
    /// remaining byte when there is none, and returns how many bytes it appended.
    pub fn read_until(&mut self, delim: u8, buf: &mut Vec<u8>) -> (n: usize)
        ensures
            n == until_len(old(self)@, delim),
            final(buf)@ == old(buf)@ + old(self)@.take(n as int),
            final(self)@ == old(self)@.skip(n as int),
    {
        proof {
            use_type_invariant(&*self);
        }
        let ghost s0 = self@;
        let ghost b0 = buf@;
        let mut n: usize = 0;
        assert(s0.skip(0) =~= s0);
        while self.pos < self.data.len()
            invariant_except_break
                until_len(s0, delim) == n + until_len(s0.skip(n as int), delim),
            invariant
                self.pos <= self.data.len(),
                n <= s0.len(),
                n + self.data.len() == self.pos + s0.len(),
                s0.len() <= self.data.len(),
                self.data@.subrange(self.pos as int, self.data@.len() as int) == s0.skip(n as int),
                buf@ == b0 + s0.take(n as int),
            ensures
                n == until_len(s0, delim),
            decreases self.data.len() - self.pos,
        {
            let b = self.data[self.pos];
            let ghost rest = s0.skip(n as int);
            assert(rest[0] == b);
            assert(rest.drop_first() =~= s0.skip(n + 1));
            buf.push(b);
            self.pos = self.pos + 1;
            n = n + 1;
            assert(buf@ =~= b0 + s0.take(n as int));
            assert(self.data@.subrange(self.pos as int, self.data@.len() as int) =~= s0.skip(n as int));
            if b == delim {
                break;
            }
        }
        assert(self@ =~= s0.skip(n as int));
        n
    }
}

} // verus!
