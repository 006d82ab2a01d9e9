//! The pairing driver: it pulls bytes from a source two at a time and never
//! probes the source again once it has reported end of input.
use vstd::prelude::*;

use super::{encoded, BytePair, Cipher};

verus! {

/// A pull-based source of bytes.
pub trait ByteSource {
    /// The bytes the source yields, in order, before it first reports end
    /// of input. What it does after that report is left open.
    spec fn remaining(&self) -> Seq<u8>;

    fn next_byte(&mut self) -> (r: Option<u8>)
        ensures
            old(self).remaining().len() > 0 ==> r == Some(old(self).remaining()[0])
                && final(self).remaining() == old(self).remaining().drop_first(),
            old(self).remaining().len() == 0 ==> r is None,
    ;
}

/// A source that reads a byte slice from the front.
pub struct SliceSource<'a> {
    data: &'a [u8],
    pos: usize,
}

impl<'a> SliceSource<'a> {
    pub closed spec fn spec_remaining(&self) -> Seq<u8> {
        self.data@.subrange(self.pos as int, self.data@.len() as int)
    }

    pub closed spec fn wf(&self) -> bool {
        self.pos <= self.data@.len()
    }

    pub fn new(data: &'a [u8]) -> (r: Self)
        ensures
            r.remaining() == data@,
    {
        let r = SliceSource { data, pos: 0 };
        assert(r.spec_remaining() =~= data@);
        r
    }
}

impl<'a> ByteSource for SliceSource<'a> {
    closed spec fn remaining(&self) -> Seq<u8> {
        if self.wf() {
            self.spec_remaining()
        } else {
            seq![]
        }
    }

    fn next_byte(&mut self) -> (r: Option<u8>) {
        if self.pos < self.data.len() {
            let b = self.data[self.pos];
            self.pos = self.pos + 1;
            assert(self.spec_remaining() =~= old(self).spec_remaining().drop_first());
            Some(b)
        } else {
            None
        }
    }
}

/// Groups a source's bytes into pairs. Once the source has reported end of
/// input the driver is exhausted for good and reads no more.
pub struct BytePairs<S> {
    bytes: S,
    done: bool,
}

impl<S: ByteSource> BytePairs<S> {
    /// The bytes still to be paired: none once exhausted.
    pub closed spec fn unread(&self) -> Seq<u8> {
        if self.done {
            seq![]
        } else {
            self.bytes.remaining()
        }
    }

    /// Whether the source has reported end of input.
    pub closed spec fn is_exhausted(&self) -> bool {
        self.done
    }

    pub fn new(reader: S) -> (r: Self)
        ensures
            r.unread() == reader.remaining(),
            !r.is_exhausted(),
    {
        BytePairs { bytes: reader, done: false }
    }

    /// The next pair: two bytes, or one at the odd tail, or `None` at the
    /// end. An exhausted driver returns `None` and leaves its source alone.
    pub fn next_pair(&mut self) -> (r: Option<BytePair>)
        ensures
            old(self).is_exhausted() ==> r is None && *final(self) == *old(self),
            old(self).unread().len() == 0 ==> r is None && final(self).is_exhausted(),
            old(self).unread().len() == 1 ==> r == Some((old(self).unread()[0], None::<u8>))
                && final(self).is_exhausted(),
            old(self).unread().len() >= 2 ==> r == Some(
                (old(self).unread()[0], Some(old(self).unread()[1])),
            ) && final(self).unread() == old(self).unread().skip(2),
            r is None ==> final(self).is_exhausted(),
    {
        if self.done {
            return None;
        }
        match self.bytes.next_byte() {
            None => {
                self.done = true;
                None
            },
            Some(b0) => match self.bytes.next_byte() {
                None => {
                    self.done = true;
                    Some((b0, None))
                },
                Some(b1) => {
                    assert(self.bytes.remaining() =~= old(self).unread().skip(2));
                    Some((b0, Some(b1)))
                },
            },
        }
    }
}

/// Encodes every pair that `pairs` still yields, appending the units to
/// `out` in order.
pub fn encrypt_pairs<C: Cipher<N>, S: ByteSource, const N: usize>(
    cipher: &C,
    pairs: &mut BytePairs<S>,
    out: &mut Vec<u8>,
)
    ensures
        final(out)@ == old(out)@ + encoded(*cipher, old(pairs).unread()),
        final(pairs).is_exhausted(),
{
    let ghost all = old(out)@ + encoded(*cipher, pairs.unread());
    loop
        invariant_except_break
            all == out@ + encoded(*cipher, pairs.unread()),
        ensures
            all == out@,
            pairs.is_exhausted(),
        decreases pairs.unread().len(),
    {
        match pairs.next_pair() {
            Some(pair) => {
                let unit = cipher.encrypt_char_pair(pair);
                let ghost before = out@;
                let mut k: usize = 0;
                while k < N
                    invariant
                        k <= N,
                        unit@.len() == N,
                        out@ == before + unit@.take(k as int),
                    decreases N - k,
                {
                    out.push(unit[k]);
                    k = k + 1;
                    assert(unit@.take(k as int) =~= unit@.take(k - 1).push(unit@[k - 1]));
                }
                assert(unit@.take(N as int) =~= unit@);
                assert(all == out@ + encoded(*cipher, pairs.unread()));
            },
            None => {
                break;
            },
        }
    }
}

/// Writes the encoding of everything a source yields to an output buffer.
pub struct Encrypter<C, const N: usize> {
    writer: Vec<u8>,
    cipher: C,
}

impl<C: Cipher<N>, const N: usize> Encrypter<C, N> {
    /// What has been written so far.
    pub closed spec fn written(&self) -> Seq<u8> {
        self.writer@
    }

    pub closed spec fn spec_cipher(&self) -> C {
        self.cipher
    }

    pub fn new(writer: Vec<u8>, cipher: C) -> (r: Self)
        ensures
            r.written() == writer@,
            r.spec_cipher() == cipher,
    {
        Encrypter { writer, cipher }
    }

    /// Appends the encoding of all of `reader`'s bytes.
    pub fn encrypt<R: ByteSource>(&mut self, reader: R)
        ensures
            final(self).written() == old(self).written() + encoded(old(self).spec_cipher(), reader.remaining()),
            final(self).spec_cipher() == old(self).spec_cipher(),
    {
        let mut pairs = BytePairs::new(reader);
        encrypt_pairs(&self.cipher, &mut pairs, &mut self.writer);
    }

    pub fn writer(&self) -> (r: &Vec<u8>)
        ensures
            r@ == self.written(),
    {
        &self.writer
    }

    pub fn into_writer(self) -> (r: Vec<u8>)
        ensures
            r@ == self.written(),
    {
        self.writer
    }
}

} // verus!
