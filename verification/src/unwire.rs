//! Reading values back from a wire.
use vstd::prelude::*;
use vstd::utf8::{decode_utf8, valid_utf8};

use crate::endian::{
    be_decode, be_encode, lemma_be_decode_bound, lemma_be_decode_encode, lemma_be_encode_len,
    lemma_pow256_values, pow256, read_be,
};
use crate::error::WireError;
use crate::wire::Wiring;

verus! {

/// Take `n` big-endian bytes from the front of `s`: the number they hold and `n`.
pub open spec fn take_be(s: Seq<u8>, n: nat) -> Result<(nat, nat), WireError> {
    if s.len() < n {
        Err(WireError::UnexpectedEof)
    } else {
        Ok((be_decode(s.take(n as int)), n))
    }
}

/// Skip a value of `n` bytes at the front of `s`.
pub open spec fn fixed_skip(s: Seq<u8>, n: nat) -> Result<nat, WireError> {
    if s.len() < n {
        Err(WireError::UnexpectedEof)
    } else {
        Ok(n)
    }
}

/// Whether `after` is `before` wherever `before` did not run out of input.
pub open spec fn settled<V>(before: Result<V, WireError>, after: Result<V, WireError>) -> bool {
    before != Err::<V, WireError>(WireError::UnexpectedEof) ==> after == before
}

/// Whether `after` is what is left of `before` once some bytes at its front are read.
pub open spec fn read_on(before: Seq<u8>, after: Seq<u8>) -> bool {
    &&& after.len() <= before.len()
    &&& forall|i: int| 0 <= i < after.len() ==> after[i] == before[i + before.len() - after.len()]
}

/// Taking bytes from the front of `s` is unchanged by what follows `s`.
pub proof fn lemma_take_be_extends(s: Seq<u8>, t: Seq<u8>, n: nat)
    ensures
        settled(take_be(s, n), take_be(s + t, n)),
        settled(fixed_skip(s, n), fixed_skip(s + t, n)),
        n <= s.len() ==> (s + t).skip(n as int) == s.skip(n as int) + t,
{
    if n <= s.len() {
        assert((s + t).take(n as int) =~= s.take(n as int));
        assert((s + t).skip(n as int) =~= s.skip(n as int) + t);
    }
}

/// `std::str::from_utf8`: the bytes as a string slice, where they are valid UTF-8.
#[verifier::external_body]
fn str_from_utf8(bytes: &[u8]) -> (r: Option<&str>)
    ensures
        r is Some <==> valid_utf8(bytes@),
        r matches Some(s) ==> s@ == decode_utf8(bytes@),
{
    std::str::from_utf8(bytes).ok()
}

/// A byte source that values are unwired from.
pub trait Unwire: Sized {
    /// The bytes not read yet.
    spec fn unread(&self) -> Seq<u8>;

    /// Read the number held by the next `n` bytes, most significant first.
    fn sync_unwire_be(&mut self, n: usize) -> (r: Result<u128, WireError>)
        requires
            n <= 16,
        ensures
            match take_be(old(self).unread(), n as nat) {
                Ok((v, k)) => r == Ok::<u128, WireError>(v as u128) && final(self).unread()
                    == old(self).unread().skip(k as int),
                Err(e) => r == Err::<u128, WireError>(e) && final(self).unread() == old(self).unread(),
            },
    ;

    /// Skip the next `amt` bytes.
    fn advance_position(&mut self, amt: u64) -> (r: Result<(), WireError>)
        ensures
            amt <= old(self).unread().len() ==> r is Ok && final(self).unread() == old(
                self,
            ).unread().skip(amt as int),
            amt > old(self).unread().len() ==> r == Err::<(), WireError>(WireError::UnexpectedEof)
                && final(self).unread() == old(self).unread(),
    ;

    /// Read a `u8` from the next 1 bytes, most significant first.
    fn sync_unwire_u8(&mut self) -> (r: Result<u8, WireError>)
        ensures
            match take_be(old(self).unread(), 1) {
                Ok((v, k)) => r == Ok::<u8, WireError>(v as u8) && final(self).unread()
                    == old(self).unread().skip(k as int),
                Err(e) => r == Err::<u8, WireError>(e) && final(self).unread() == old(self).unread(),
            },
    {
        let ghost s = self.unread();
        proof {
            lemma_pow256_values();
            if s.len() >= 1 {
                lemma_be_decode_bound(s.take(1));
            }
        }
        match self.sync_unwire_be(1) {
            Ok(x) => Ok(x as u8),
            Err(e) => Err(e),
        }
    }

    /// Read a `u16` from the next 2 bytes, most significant first.
    fn sync_unwire_u16(&mut self) -> (r: Result<u16, WireError>)
        ensures
            match take_be(old(self).unread(), 2) {
                Ok((v, k)) => r == Ok::<u16, WireError>(v as u16) && final(self).unread()
                    == old(self).unread().skip(k as int),
                Err(e) => r == Err::<u16, WireError>(e) && final(self).unread() == old(self).unread(),
            },
    {
        let ghost s = self.unread();
        proof {
            lemma_pow256_values();
            if s.len() >= 2 {
                lemma_be_decode_bound(s.take(2));
            }
        }
        match self.sync_unwire_be(2) {
            Ok(x) => Ok(x as u16),
            Err(e) => Err(e),
        }
    }

    /// Read a `u32` from the next 4 bytes, most significant first.
    fn sync_unwire_u32(&mut self) -> (r: Result<u32, WireError>)
        ensures
            match take_be(old(self).unread(), 4) {
                Ok((v, k)) => r == Ok::<u32, WireError>(v as u32) && final(self).unread()
                    == old(self).unread().skip(k as int),
                Err(e) => r == Err::<u32, WireError>(e) && final(self).unread() == old(self).unread(),
            },
    {
        let ghost s = self.unread();
        proof {
            lemma_pow256_values();
            if s.len() >= 4 {
                lemma_be_decode_bound(s.take(4));
            }
        }
        match self.sync_unwire_be(4) {
            Ok(x) => Ok(x as u32),
            Err(e) => Err(e),
        }
    }

    /// Read a `u64` from the next 8 bytes, most significant first.
    fn sync_unwire_u64(&mut self) -> (r: Result<u64, WireError>)
        ensures
            match take_be(old(self).unread(), 8) {
                Ok((v, k)) => r == Ok::<u64, WireError>(v as u64) && final(self).unread()
                    == old(self).unread().skip(k as int),
                Err(e) => r == Err::<u64, WireError>(e) && final(self).unread() == old(self).unread(),
            },
    {
        let ghost s = self.unread();
        proof {
            lemma_pow256_values();
            if s.len() >= 8 {
                lemma_be_decode_bound(s.take(8));
            }
        }
        match self.sync_unwire_be(8) {
            Ok(x) => Ok(x as u64),
            Err(e) => Err(e),
        }
    }

    /// Read text: a `u64` byte length, then that many bytes, which must be UTF-8.
    ///
    /// Where the length is there but the text is not, the length stays read; where
    /// the text is not UTF-8, it stays read too.
    fn sync_unwire_string(&mut self) -> (r: Result<String, WireError>)
        ensures
            match take_be(old(self).unread(), 8) {
                Err(e) => r == Err::<String, WireError>(e) && final(self).unread() == old(self).unread(),
                Ok((len, k)) => if old(self).unread().len() < k + len {
                    &&& r == Err::<String, WireError>(WireError::UnexpectedEof)
                    &&& final(self).unread() == old(self).unread().skip(k as int)
                } else {
                    let b = old(self).unread().subrange(k as int, (k + len) as int);
                    if valid_utf8(b) {
                        &&& r is Ok
                        &&& r->Ok_0@ == decode_utf8(b)
                        &&& final(self).unread() == old(self).unread().skip((k + len) as int)
                    } else {
                        &&& r == Err::<String, WireError>(WireError::InvalidData)
                        &&& final(self).unread() == old(self).unread().skip((k + len) as int)
                    }
                },
            },
    {
        let ghost s = self.unread();
        proof {
            lemma_pow256_values();
            if s.len() >= 8 {
                lemma_be_decode_bound(s.take(8));
            }
        }
        let len = match self.sync_unwire_u64() {
            Ok(x) => x,
            Err(e) => {
                return Err(e);
            },
        };
        let bytes = match self.sync_unwire_bytes(len) {
            Ok(b) => b,
            Err(e) => {
                return Err(e);
            },
        };
        assert(bytes@ =~= s.subrange(8, 8 + len));
        assert(self.unread() =~= s.skip(8 + len));
        match str_from_utf8(bytes.as_slice()) {
            Some(t) => Ok(t.to_owned()),
            None => Err(WireError::InvalidData),
        }
    }

    /// Read the next `len` bytes.
    fn sync_unwire_bytes(&mut self, len: u64) -> (r: Result<Vec<u8>, WireError>)
        ensures
            len <= old(self).unread().len() ==> r is Ok && r->Ok_0@ == old(self).unread().take(
                len as int,
            ) && final(self).unread() == old(self).unread().skip(len as int),
            len > old(self).unread().len() ==> r == Err::<Vec<u8>, WireError>(WireError::UnexpectedEof)
                && final(self).unread() == old(self).unread(),
    ;
}

/// A reader over an in-memory buffer.
///
/// Reads that go through [`Unwire`] are checked against the end of the buffer; the
/// `unwire_*` methods read without a check and require that the bytes are there.
pub struct UnsafeReader<'a> {
    slice: &'a [u8],
    source_buffer_len: usize,
    position: usize,
}

impl<'a> UnsafeReader<'a> {
    #[verifier::type_invariant]
    spec fn inv(self) -> bool {
        &&& self.source_buffer_len == self.slice@.len()
        &&& self.position <= self.source_buffer_len
    }

    /// The whole buffer.
    pub closed spec fn buffer(&self) -> Seq<u8> {
        self.slice@
    }

    /// How many bytes have been read.
    pub closed spec fn pos(&self) -> nat {
        self.position as nat
    }

    /// A reader at the start of `source_buffer`.
    pub fn new(source_buffer: &'a [u8]) -> (r: Self)
        ensures
            r.buffer() == source_buffer@,
            r.pos() == 0,
    {
        UnsafeReader { slice: source_buffer, source_buffer_len: source_buffer.len(), position: 0 }
    }

    /// The buffer the reader reads from.
    pub fn as_ptr(&self) -> (r: &'a [u8])
        ensures
            r@ == self.buffer(),
    {
        self.slice
    }

    /// How many bytes have been read.
    pub fn position(&self) -> (r: usize)
        ensures
            r == self.pos(),
    {
        self.position
    }

    fn unwire_be(&mut self, n: usize) -> (r: u128)
        requires
            n <= 16,
            old(self).pos() + n <= old(self).buffer().len(),
        ensures
            final(self).buffer() == old(self).buffer(),
            final(self).pos() == old(self).pos() + n,
            r as nat == be_decode(old(self).buffer().subrange(old(self).pos() as int, old(self).pos() + n)),
    {
        proof {
            use_type_invariant(&*self);
        }
        let v = read_be(self.slice, self.position, n);
        self.position = self.position + n;
        v
    }

    /// Read a `u64` with no bound check; the eight bytes must be there.
    pub fn unwire_u64(&mut self) -> (r: u64)
        requires
            old(self).pos() + 8 <= old(self).buffer().len(),
        ensures
            final(self).buffer() == old(self).buffer(),
            final(self).pos() == old(self).pos() + 8,
            r as nat == be_decode(old(self).buffer().subrange(old(self).pos() as int, old(self).pos() + 8int)),
    {
        proof {
            lemma_pow256_values();
            lemma_be_decode_bound(old(self).buffer().subrange(old(self).pos() as int, old(self).pos() + 8int));
        }
        self.unwire_be(8) as u64
    }

    /// Read a `u32` with no bound check; the four bytes must be there.
    pub fn unwire_u32(&mut self) -> (r: u32)
        requires
            old(self).pos() + 4 <= old(self).buffer().len(),
        ensures
            final(self).buffer() == old(self).buffer(),
            final(self).pos() == old(self).pos() + 4,
            r as nat == be_decode(old(self).buffer().subrange(old(self).pos() as int, old(self).pos() + 4int)),
    {
        proof {
            lemma_pow256_values();
            lemma_be_decode_bound(old(self).buffer().subrange(old(self).pos() as int, old(self).pos() + 4int));
        }
        self.unwire_be(4) as u32
    }

    /// Read a `u16` with no bound check; the two bytes must be there.
    pub fn unwire_u16(&mut self) -> (r: u16)
        requires
            old(self).pos() + 2 <= old(self).buffer().len(),
        ensures
            final(self).buffer() == old(self).buffer(),
            final(self).pos() == old(self).pos() + 2,
            r as nat == be_decode(old(self).buffer().subrange(old(self).pos() as int, old(self).pos() + 2int)),
    {
        proof {
            lemma_pow256_values();
            lemma_be_decode_bound(old(self).buffer().subrange(old(self).pos() as int, old(self).pos() + 2int));
        }
        self.unwire_be(2) as u16
    }

    /// Read a `u8` with no bound check; the byte must be there.
    pub fn unwire_u8(&mut self) -> (r: u8)
        requires
            old(self).pos() + 1 <= old(self).buffer().len(),
        ensures
            final(self).buffer() == old(self).buffer(),
            final(self).pos() == old(self).pos() + 1,
            r == old(self).buffer()[old(self).pos() as int],
    {
        proof {
            use_type_invariant(&*self);
        }
        let b = self.slice[self.position];
        self.position = self.position + 1;
        b
    }

    /// Read the next `len` bytes with no bound check; they must be there.
    pub fn unwire_slice(&mut self, len: usize) -> (r: &'a [u8])
        requires
            old(self).pos() + len <= old(self).buffer().len(),
        ensures
            final(self).buffer() == old(self).buffer(),
            final(self).pos() == old(self).pos() + len,
            r@ == old(self).buffer().subrange(old(self).pos() as int, old(self).pos() + len),
    {
        proof {
            use_type_invariant(&*self);
        }
        let s = &self.slice[self.position..self.position + len];
        self.position = self.position + len;
        s
    }
}

impl<'a> Unwire for UnsafeReader<'a> {
    closed spec fn unread(&self) -> Seq<u8> {
        self.slice@.subrange(self.position as int, self.slice@.len() as int)
    }

    fn sync_unwire_be(&mut self, n: usize) -> (r: Result<u128, WireError>) {
        proof {
            use_type_invariant(&*self);
        }
        if self.source_buffer_len - self.position < n {
            Err(WireError::UnexpectedEof)
        } else {
            let ghost u = self.unread();
            let v = self.unwire_be(n);
            assert(u.take(n as int) =~= self.slice@.subrange(self.position - n, self.position as int));
            assert(self.unread() =~= u.skip(n as int));
            Ok(v)
        }
    }

    fn advance_position(&mut self, amt: u64) -> (r: Result<(), WireError>) {
        proof {
            use_type_invariant(&*self);
        }
        if (amt as u128) > ((self.source_buffer_len - self.position) as u128) {
            Err(WireError::UnexpectedEof)
        } else {
            let ghost u = self.unread();
            self.position = self.position + amt as usize;
            assert(self.unread() =~= u.skip(amt as int));
            Ok(())
        }
    }

    fn sync_unwire_bytes(&mut self, len: u64) -> (r: Result<Vec<u8>, WireError>) {
        proof {
            use_type_invariant(&*self);
        }
        if (len as u128) > ((self.source_buffer_len - self.position) as u128) {
            Err(WireError::UnexpectedEof)
        } else {
            let ghost u = self.unread();
            let s = self.unwire_slice(len as usize);
            let mut v: Vec<u8> = Vec::new();
            let mut i: usize = 0;
            while i < s.len()
                invariant
                    i <= s@.len(),
                    v@ =~= s@.subrange(0, i as int),
                decreases s@.len() - i,
            {
                v.push(s[i]);
                i = i + 1;
            }
            assert(v@ =~= u.take(len as int));
            assert(self.unread() =~= u.skip(len as int));
            Ok(v)
        }
    }
}

/// A byte slice is read from its front; each read leaves the slice at the bytes after
/// it.
impl<'a> Unwire for &'a [u8] {
    open spec fn unread(&self) -> Seq<u8> {
        (**self)@
    }

    fn sync_unwire_be(&mut self, n: usize) -> (r: Result<u128, WireError>) {
        if self.len() < n {
            Err(WireError::UnexpectedEof)
        } else {
            let ghost u = (**self)@;
            let v = read_be(*self, 0, n);
            let (_, rest) = self.split_at(n);
            *self = rest;
            assert(u.subrange(0, n as int) =~= u.take(n as int));
            assert((**self)@ =~= u.skip(n as int));
            Ok(v)
        }
    }

    fn advance_position(&mut self, amt: u64) -> (r: Result<(), WireError>) {
        if (amt as u128) > (self.len() as u128) {
            Err(WireError::UnexpectedEof)
        } else {
            let ghost u = (**self)@;
            let (_, rest) = self.split_at(amt as usize);
            *self = rest;
            assert((**self)@ =~= u.skip(amt as int));
            Ok(())
        }
    }

    fn sync_unwire_bytes(&mut self, len: u64) -> (r: Result<Vec<u8>, WireError>) {
        if (len as u128) > (self.len() as u128) {
            Err(WireError::UnexpectedEof)
        } else {
            let ghost u = (**self)@;
            let (head, rest) = self.split_at(len as usize);
            let mut v: Vec<u8> = Vec::new();
            let mut i: usize = 0;
            while i < head.len()
                invariant
                    i <= head@.len(),
                    v@ =~= head@.subrange(0, i as int),
                decreases head@.len() - i,
            {
                v.push(head[i]);
                i = i + 1;
            }
            *self = rest;
            assert(v@ =~= u.take(len as int));
            assert((**self)@ =~= u.skip(len as int));
            Ok(v)
        }
    }
}

/// Shift a length-walk result by `c` bytes already taken.
pub open spec fn shift(c: nat, r: Result<nat, WireError>) -> Result<nat, WireError> {
    match r {
        Ok(m) => Ok(c + m),
        Err(e) => Err(e),
    }
}

/// The bytes taken by `count` values at the front of `s`, where `skip` gives the
/// bytes of one value, as the length walk sees them.
pub open spec fn skip_n(skip: spec_fn(Seq<u8>) -> Result<nat, WireError>, s: Seq<u8>, count: nat) -> Result<nat, WireError>
    decreases count,
{
    if count == 0 {
        Ok(0)
    } else {
        match skip(s) {
            Err(e) => Err(e),
            Ok(n) => match skip_n(skip, s.skip(n as int), (count - 1) as nat) {
                Ok(m) => Ok(n + m),
                Err(e) => Err(e),
            },
        }
    }
}

/// A value that can be read back from a wire.
pub trait Unwiring: Wiring {
    /// Unwire a value from the front of `s`: its model and the bytes it took.
    spec fn spec_unwire(s: Seq<u8>) -> Result<(Self::V, nat), WireError>;

    /// The bytes one value at the front of `s` takes, reading only its length headers.
    spec fn spec_skip(s: Seq<u8>) -> Result<nat, WireError>;

    /// Unwire one value. On an error the wire has only moved forward: what is left
    /// is a tail of what was there.
    fn sync_unwiring<W: Unwire>(wire: &mut W) -> (r: Result<Self, WireError>)
        ensures
            match Self::spec_unwire(old(wire).unread()) {
                Ok((v, n)) => r is Ok && r->Ok_0.deep_view() == v && final(wire).unread() == old(
                    wire,
                ).unread().skip(n as int),
                Err(e) => r == Err::<Self, WireError>(e) && read_on(old(wire).unread(), final(wire).unread()),
            },
    ;

    /// The number of bytes that `count` values take, the length prefixes included;
    /// the wire is moved past them. By default the values are walked one at a time;
    /// a type of fixed width takes them in one step.
    fn bytes_length<W: Unwire>(wire: &mut W, count: u64) -> (r: Result<u64, WireError>)
        requires
            old(wire).unread().len() <= u64::MAX,
        ensures
            match skip_n(|x: Seq<u8>| Self::spec_skip(x), old(wire).unread(), count as nat) {
                Ok(n) => r == Ok::<u64, WireError>(n as u64) && final(wire).unread() == old(
                    wire,
                ).unread().skip(n as int),
                Err(e) => r == Err::<u64, WireError>(e),
            },
    {
        let ghost f = |x: Seq<u8>| Self::spec_skip(x);
        let ghost s0 = wire.unread();
        let mut total: u64 = 0;
        let mut i: u64 = 0;
        assert(wire.unread() =~= s0.skip(0));
        while i < count
            invariant
                i <= count,
                f == (|x: Seq<u8>| Self::spec_skip(x)),
                s0 == old(wire).unread(),
                s0.len() <= u64::MAX,
                total <= s0.len(),
                wire.unread() == s0.skip(total as int),
                skip_n(f, s0, count as nat) == shift(total as nat, skip_n(f, wire.unread(), (count - i) as nat)),
            decreases count - i,
        {
            let ghost cur = wire.unread();
            proof {
                assert(skip_n(f, cur, (count - i) as nat) == match f(cur) {
                    Err(e) => Err(e),
                    Ok(n) => shift(n, skip_n(f, cur.skip(n as int), (count - i - 1) as nat)),
                });
            }
            let n = match Self::skip_one(wire) {
                Ok(n) => n,
                Err(e) => {
                    return Err(e);
                },
            };
            assert(wire.unread() =~= s0.skip(total + n));
            total = total + n;
            i = i + 1;
        }
        assert(wire.unread() =~= s0.skip(total as int));
        Ok(total)
    }

    /// Walk over the length headers of one value: the bytes it takes; the wire is
    /// moved past them.
    fn skip_one<W: Unwire>(wire: &mut W) -> (r: Result<u64, WireError>)
        requires
            old(wire).unread().len() <= u64::MAX,
        ensures
            match Self::spec_skip(old(wire).unread()) {
                Ok(n) => r == Ok::<u64, WireError>(n as u64) && n <= old(wire).unread().len()
                    && final(wire).unread() == old(wire).unread().skip(n as int),
                Err(e) => r == Err::<u64, WireError>(e),
            },
    ;

    /// A value never takes more bytes than there are.
    proof fn lemma_unwire_bounds(s: Seq<u8>)
        ensures
            Self::spec_unwire(s) is Ok ==> Self::spec_unwire(s)->Ok_0.1 <= s.len(),
            Self::spec_skip(s) is Ok ==> Self::spec_skip(s)->Ok_0 <= s.len(),
    ;

    /// Where a value unwires, the length walk takes exactly its bytes.
    proof fn lemma_skip_agrees(s: Seq<u8>)
        ensures
            Self::spec_unwire(s) is Ok ==> Self::spec_skip(s) == Ok::<nat, WireError>(
                Self::spec_unwire(s)->Ok_0.1,
            ),
    ;

    /// Bytes after a value do not change how it unwires: wherever unwiring `s`, or
    /// walking its length, does not run out of input, `s` followed by `t` gives the
    /// same.
    proof fn lemma_unwire_extends(s: Seq<u8>, t: Seq<u8>)
        ensures
            settled(Self::spec_unwire(s), Self::spec_unwire(s + t)),
            settled(Self::spec_skip(s), Self::spec_skip(s + t)),
    ;

    /// Unwiring what was wired gives the value back and takes exactly its bytes,
    /// whatever follows them.
    proof fn lemma_roundtrip(v: Self::V, rest: Seq<u8>)
        requires
            Self::spec_valid(v),
        ensures
            Self::spec_unwire(Self::spec_wire(v) + rest) == Ok::<(Self::V, nat), WireError>(
                (v, Self::spec_wire(v).len()),
            ),
    ;
}

/// `skip_n` for a type of fixed width `k`.
pub proof fn lemma_skip_n_fixed(skip: spec_fn(Seq<u8>) -> Result<nat, WireError>, s: Seq<u8>, count: nat, k: nat)
    requires
        forall|x: Seq<u8>| #[trigger] skip(x) == fixed_skip(x, k),
    ensures
        skip_n(skip, s, count) == (if count * k <= s.len() {
            Ok::<nat, WireError>(count * k)
        } else {
            Err::<nat, WireError>(WireError::UnexpectedEof)
        }),
    decreases count,
{
    if count > 0 {
        let m = ((count - 1) as nat) * k;
        assert(count * k == k + m) by (nonlinear_arith)
            requires
                count > 0,
                m == ((count - 1) as nat) * k,
        ;
        assert(skip(s) == fixed_skip(s, k));
        if k <= s.len() {
            let t = s.skip(k as int);
            assert(t.len() == s.len() - k);
            lemma_skip_n_fixed(skip, t, (count - 1) as nat, k);
            assert(skip_n(skip, s, count) == match skip_n(skip, t, (count - 1) as nat) {
                Ok(m2) => Ok::<nat, WireError>(k + m2),
                Err(e) => Err::<nat, WireError>(e),
            });
        }
    } else {
        assert(count * k == 0) by (nonlinear_arith)
            requires
                count == 0,
        ;
    }
}

/// The length walk over `count` values of a type of fixed width `k`.
pub fn fixed_bytes_length<W: Unwire>(wire: &mut W, count: u64, k: u64) -> (r: Result<
    u64,
    WireError,
>)
    requires
        old(wire).unread().len() <= u64::MAX,
    ensures
        match skip_n(|x: Seq<u8>| fixed_skip(x, k as nat), old(wire).unread(), count as nat) {
            Ok(n) => r == Ok::<u64, WireError>(n as u64) && final(wire).unread() == old(
                wire,
            ).unread().skip(n as int),
            Err(e) => r == Err::<u64, WireError>(e),
        },
{
    proof {
        lemma_skip_n_fixed(|x: Seq<u8>| fixed_skip(x, k as nat), wire.unread(), count as nat, k as nat);
    }
    match count.checked_mul(k) {
        None => Err(WireError::UnexpectedEof),
        Some(total) => {
            match wire.advance_position(total) {
                Ok(()) => Ok(total),
                Err(e) => Err(e),
            }
        },
    }
}

/// A fixed-width number, wired with `k` bytes, comes back whole.
pub proof fn lemma_take_be_roundtrip(x: nat, k: nat, rest: Seq<u8>)
    requires
        x < pow256(k),
    ensures
        take_be(be_encode(x, k) + rest, k) == Ok::<(nat, nat), WireError>((x, k)),
        be_encode(x, k).len() == k,
{
    lemma_be_encode_len(x, k);
    assert((be_encode(x, k) + rest).take(k as int) =~= be_encode(x, k));
    lemma_be_decode_encode(x, k);
}

/// A `u8` is read from 1 big-endian byte.
impl Unwiring for u8 {
    open spec fn spec_unwire(s: Seq<u8>) -> Result<(u8, nat), WireError> {
        match take_be(s, 1) {
            Ok((x, n)) => Ok((x as u8, n)),
            Err(e) => Err(e),
        }
    }

    open spec fn spec_skip(s: Seq<u8>) -> Result<nat, WireError> {
        fixed_skip(s, 1)
    }

    fn sync_unwiring<W: Unwire>(wire: &mut W) -> (r: Result<u8, WireError>) {
        let ghost s = wire.unread();
        match wire.sync_unwire_be(1) {
            Ok(x) => {
                proof {
                    lemma_pow256_values();
                    if s.len() >= 1 {
                        lemma_be_decode_bound(s.take(1));
                    }
                }
                Ok(x as u8)
            },
            Err(e) => Err(e),
        }
    }

    fn skip_one<W: Unwire>(wire: &mut W) -> (r: Result<u64, WireError>) {
        match wire.advance_position(1) {
            Ok(()) => Ok(1),
            Err(e) => Err(e),
        }
    }

    fn bytes_length<W: Unwire>(wire: &mut W, count: u64) -> (r: Result<u64, WireError>) {
        proof {
            assert((|x: Seq<u8>| Self::spec_skip(x)) =~= (|x: Seq<u8>| fixed_skip(x, 1 as nat)));
        }
        fixed_bytes_length(wire, count, 1)
    }

    proof fn lemma_unwire_bounds(s: Seq<u8>) {
    }

    proof fn lemma_skip_agrees(s: Seq<u8>) {
    }

    proof fn lemma_unwire_extends(s: Seq<u8>, t: Seq<u8>) {
        lemma_take_be_extends(s, t, 1);
    }

    proof fn lemma_roundtrip(v: u8, rest: Seq<u8>) {
        lemma_pow256_values();
        lemma_take_be_roundtrip(v as nat, 1, rest);
    }
}

/// A `u16` is read from 2 big-endian bytes.
impl Unwiring for u16 {
    open spec fn spec_unwire(s: Seq<u8>) -> Result<(u16, nat), WireError> {
        match take_be(s, 2) {
            Ok((x, n)) => Ok((x as u16, n)),
            Err(e) => Err(e),
        }
    }

    open spec fn spec_skip(s: Seq<u8>) -> Result<nat, WireError> {
        fixed_skip(s, 2)
    }

    fn sync_unwiring<W: Unwire>(wire: &mut W) -> (r: Result<u16, WireError>) {
        let ghost s = wire.unread();
        match wire.sync_unwire_be(2) {
            Ok(x) => {
                proof {
                    lemma_pow256_values();
                    if s.len() >= 2 {
                        lemma_be_decode_bound(s.take(2));
                    }
                }
                Ok(x as u16)
            },
            Err(e) => Err(e),
        }
    }

    fn skip_one<W: Unwire>(wire: &mut W) -> (r: Result<u64, WireError>) {
        match wire.advance_position(2) {
            Ok(()) => Ok(2),
            Err(e) => Err(e),
        }
    }

    fn bytes_length<W: Unwire>(wire: &mut W, count: u64) -> (r: Result<u64, WireError>) {
        proof {
            assert((|x: Seq<u8>| Self::spec_skip(x)) =~= (|x: Seq<u8>| fixed_skip(x, 2 as nat)));
        }
        fixed_bytes_length(wire, count, 2)
    }

    proof fn lemma_unwire_bounds(s: Seq<u8>) {
    }

    proof fn lemma_skip_agrees(s: Seq<u8>) {
    }

    proof fn lemma_unwire_extends(s: Seq<u8>, t: Seq<u8>) {
        lemma_take_be_extends(s, t, 2);
    }

    proof fn lemma_roundtrip(v: u16, rest: Seq<u8>) {
        lemma_pow256_values();
        lemma_take_be_roundtrip(v as nat, 2, rest);
    }
}

/// A `u32` is read from 4 big-endian bytes.
impl Unwiring for u32 {
    open spec fn spec_unwire(s: Seq<u8>) -> Result<(u32, nat), WireError> {
        match take_be(s, 4) {
            Ok((x, n)) => Ok((x as u32, n)),
            Err(e) => Err(e),
        }
    }

    open spec fn spec_skip(s: Seq<u8>) -> Result<nat, WireError> {
        fixed_skip(s, 4)
    }

    fn sync_unwiring<W: Unwire>(wire: &mut W) -> (r: Result<u32, WireError>) {
        let ghost s = wire.unread();
        match wire.sync_unwire_be(4) {
            Ok(x) => {
                proof {
                    lemma_pow256_values();
                    if s.len() >= 4 {
                        lemma_be_decode_bound(s.take(4));
                    }
                }
                Ok(x as u32)
            },
            Err(e) => Err(e),
        }
    }

    fn skip_one<W: Unwire>(wire: &mut W) -> (r: Result<u64, WireError>) {
        match wire.advance_position(4) {
            Ok(()) => Ok(4),
            Err(e) => Err(e),
        }
    }

    fn bytes_length<W: Unwire>(wire: &mut W, count: u64) -> (r: Result<u64, WireError>) {
        proof {
            assert((|x: Seq<u8>| Self::spec_skip(x)) =~= (|x: Seq<u8>| fixed_skip(x, 4 as nat)));
        }
        fixed_bytes_length(wire, count, 4)
    }

    proof fn lemma_unwire_bounds(s: Seq<u8>) {
    }

    proof fn lemma_skip_agrees(s: Seq<u8>) {
    }

    proof fn lemma_unwire_extends(s: Seq<u8>, t: Seq<u8>) {
        lemma_take_be_extends(s, t, 4);
    }

    proof fn lemma_roundtrip(v: u32, rest: Seq<u8>) {
        lemma_pow256_values();
        lemma_take_be_roundtrip(v as nat, 4, rest);
    }
}

/// A `u64` is read from 8 big-endian bytes.
impl Unwiring for u64 {
    open spec fn spec_unwire(s: Seq<u8>) -> Result<(u64, nat), WireError> {
        match take_be(s, 8) {
            Ok((x, n)) => Ok((x as u64, n)),
            Err(e) => Err(e),
        }
    }

    open spec fn spec_skip(s: Seq<u8>) -> Result<nat, WireError> {
        fixed_skip(s, 8)
    }

    fn sync_unwiring<W: Unwire>(wire: &mut W) -> (r: Result<u64, WireError>) {
        let ghost s = wire.unread();
        match wire.sync_unwire_be(8) {
            Ok(x) => {
                proof {
                    lemma_pow256_values();
                    if s.len() >= 8 {
                        lemma_be_decode_bound(s.take(8));
                    }
                }
                Ok(x as u64)
            },
            Err(e) => Err(e),
        }
    }

    fn skip_one<W: Unwire>(wire: &mut W) -> (r: Result<u64, WireError>) {
        match wire.advance_position(8) {
            Ok(()) => Ok(8),
            Err(e) => Err(e),
        }
    }

    fn bytes_length<W: Unwire>(wire: &mut W, count: u64) -> (r: Result<u64, WireError>) {
        proof {
            assert((|x: Seq<u8>| Self::spec_skip(x)) =~= (|x: Seq<u8>| fixed_skip(x, 8 as nat)));
        }
        fixed_bytes_length(wire, count, 8)
    }

    proof fn lemma_unwire_bounds(s: Seq<u8>) {
    }

    proof fn lemma_skip_agrees(s: Seq<u8>) {
    }

    proof fn lemma_unwire_extends(s: Seq<u8>, t: Seq<u8>) {
        lemma_take_be_extends(s, t, 8);
    }

    proof fn lemma_roundtrip(v: u64, rest: Seq<u8>) {
        lemma_pow256_values();
        lemma_take_be_roundtrip(v as nat, 8, rest);
    }
}

/// A `u128` is read from 16 big-endian bytes.
impl Unwiring for u128 {
    open spec fn spec_unwire(s: Seq<u8>) -> Result<(u128, nat), WireError> {
        match take_be(s, 16) {
            Ok((x, n)) => Ok((x as u128, n)),
            Err(e) => Err(e),
        }
    }

    open spec fn spec_skip(s: Seq<u8>) -> Result<nat, WireError> {
        fixed_skip(s, 16)
    }

    fn sync_unwiring<W: Unwire>(wire: &mut W) -> (r: Result<u128, WireError>) {
        let ghost s = wire.unread();
        match wire.sync_unwire_be(16) {
            Ok(x) => {
                proof {
                    lemma_pow256_values();
                    if s.len() >= 16 {
                        lemma_be_decode_bound(s.take(16));
                    }
                }
                Ok(x)
            },
            Err(e) => Err(e),
        }
    }

    fn skip_one<W: Unwire>(wire: &mut W) -> (r: Result<u64, WireError>) {
        match wire.advance_position(16) {
            Ok(()) => Ok(16),
            Err(e) => Err(e),
        }
    }

    fn bytes_length<W: Unwire>(wire: &mut W, count: u64) -> (r: Result<u64, WireError>) {
        proof {
            assert((|x: Seq<u8>| Self::spec_skip(x)) =~= (|x: Seq<u8>| fixed_skip(x, 16 as nat)));
        }
        fixed_bytes_length(wire, count, 16)
    }

    proof fn lemma_unwire_bounds(s: Seq<u8>) {
    }

    proof fn lemma_skip_agrees(s: Seq<u8>) {
    }

    proof fn lemma_unwire_extends(s: Seq<u8>, t: Seq<u8>) {
        lemma_take_be_extends(s, t, 16);
    }

    proof fn lemma_roundtrip(v: u128, rest: Seq<u8>) {
        lemma_pow256_values();
        lemma_take_be_roundtrip(v as nat, 16, rest);
    }
}

/// A `i8` is read from 1 big-endian byte.
impl Unwiring for i8 {
    open spec fn spec_unwire(s: Seq<u8>) -> Result<(i8, nat), WireError> {
        match take_be(s, 1) {
            Ok((x, n)) => Ok(((x as u8) as i8, n)),
            Err(e) => Err(e),
        }
    }

    open spec fn spec_skip(s: Seq<u8>) -> Result<nat, WireError> {
        fixed_skip(s, 1)
    }

    fn sync_unwiring<W: Unwire>(wire: &mut W) -> (r: Result<i8, WireError>) {
        let ghost s = wire.unread();
        match wire.sync_unwire_be(1) {
            Ok(x) => {
                proof {
                    lemma_pow256_values();
                    if s.len() >= 1 {
                        lemma_be_decode_bound(s.take(1));
                    }
                }
                Ok((x as u8) as i8)
            },
            Err(e) => Err(e),
        }
    }

    fn skip_one<W: Unwire>(wire: &mut W) -> (r: Result<u64, WireError>) {
        match wire.advance_position(1) {
            Ok(()) => Ok(1),
            Err(e) => Err(e),
        }
    }

    fn bytes_length<W: Unwire>(wire: &mut W, count: u64) -> (r: Result<u64, WireError>) {
        proof {
            assert((|x: Seq<u8>| Self::spec_skip(x)) =~= (|x: Seq<u8>| fixed_skip(x, 1 as nat)));
        }
        fixed_bytes_length(wire, count, 1)
    }

    proof fn lemma_unwire_bounds(s: Seq<u8>) {
    }

    proof fn lemma_skip_agrees(s: Seq<u8>) {
    }

    proof fn lemma_unwire_extends(s: Seq<u8>, t: Seq<u8>) {
        lemma_take_be_extends(s, t, 1);
    }

    proof fn lemma_roundtrip(v: i8, rest: Seq<u8>) {
        lemma_pow256_values();
        lemma_take_be_roundtrip((v as u8) as nat, 1, rest);
        assert(((v as u8) as i8) == v) by (bit_vector);
    }
}

/// A `i16` is read from 2 big-endian bytes.
impl Unwiring for i16 {
    open spec fn spec_unwire(s: Seq<u8>) -> Result<(i16, nat), WireError> {
        match take_be(s, 2) {
            Ok((x, n)) => Ok(((x as u16) as i16, n)),
            Err(e) => Err(e),
        }
    }

    open spec fn spec_skip(s: Seq<u8>) -> Result<nat, WireError> {
        fixed_skip(s, 2)
    }

    fn sync_unwiring<W: Unwire>(wire: &mut W) -> (r: Result<i16, WireError>) {
        let ghost s = wire.unread();
        match wire.sync_unwire_be(2) {
            Ok(x) => {
                proof {
                    lemma_pow256_values();
                    if s.len() >= 2 {
                        lemma_be_decode_bound(s.take(2));
                    }
                }
                Ok((x as u16) as i16)
            },
            Err(e) => Err(e),
        }
    }

    fn skip_one<W: Unwire>(wire: &mut W) -> (r: Result<u64, WireError>) {
        match wire.advance_position(2) {
            Ok(()) => Ok(2),
            Err(e) => Err(e),
        }
    }

    fn bytes_length<W: Unwire>(wire: &mut W, count: u64) -> (r: Result<u64, WireError>) {
        proof {
            assert((|x: Seq<u8>| Self::spec_skip(x)) =~= (|x: Seq<u8>| fixed_skip(x, 2 as nat)));
        }
        fixed_bytes_length(wire, count, 2)
    }

    proof fn lemma_unwire_bounds(s: Seq<u8>) {
    }

    proof fn lemma_skip_agrees(s: Seq<u8>) {
    }

    proof fn lemma_unwire_extends(s: Seq<u8>, t: Seq<u8>) {
        lemma_take_be_extends(s, t, 2);
    }

    proof fn lemma_roundtrip(v: i16, rest: Seq<u8>) {
        lemma_pow256_values();
        lemma_take_be_roundtrip((v as u16) as nat, 2, rest);
        assert(((v as u16) as i16) == v) by (bit_vector);
    }
}

/// A `i32` is read from 4 big-endian bytes.
impl Unwiring for i32 {
    open spec fn spec_unwire(s: Seq<u8>) -> Result<(i32, nat), WireError> {
        match take_be(s, 4) {
            Ok((x, n)) => Ok(((x as u32) as i32, n)),
            Err(e) => Err(e),
        }
    }

    open spec fn spec_skip(s: Seq<u8>) -> Result<nat, WireError> {
        fixed_skip(s, 4)
    }

    fn sync_unwiring<W: Unwire>(wire: &mut W) -> (r: Result<i32, WireError>) {
        let ghost s = wire.unread();
        match wire.sync_unwire_be(4) {
            Ok(x) => {
                proof {
                    lemma_pow256_values();
                    if s.len() >= 4 {
                        lemma_be_decode_bound(s.take(4));
                    }
                }
                Ok((x as u32) as i32)
            },
            Err(e) => Err(e),
        }
    }

    fn skip_one<W: Unwire>(wire: &mut W) -> (r: Result<u64, WireError>) {
        match wire.advance_position(4) {
            Ok(()) => Ok(4),
            Err(e) => Err(e),
        }
    }

    fn bytes_length<W: Unwire>(wire: &mut W, count: u64) -> (r: Result<u64, WireError>) {
        proof {
            assert((|x: Seq<u8>| Self::spec_skip(x)) =~= (|x: Seq<u8>| fixed_skip(x, 4 as nat)));
        }
        fixed_bytes_length(wire, count, 4)
    }

    proof fn lemma_unwire_bounds(s: Seq<u8>) {
    }

    proof fn lemma_skip_agrees(s: Seq<u8>) {
    }

    proof fn lemma_unwire_extends(s: Seq<u8>, t: Seq<u8>) {
        lemma_take_be_extends(s, t, 4);
    }

    proof fn lemma_roundtrip(v: i32, rest: Seq<u8>) {
        lemma_pow256_values();
        lemma_take_be_roundtrip((v as u32) as nat, 4, rest);
        assert(((v as u32) as i32) == v) by (bit_vector);
    }
}

/// A `i64` is read from 8 big-endian bytes.
impl Unwiring for i64 {
    open spec fn spec_unwire(s: Seq<u8>) -> Result<(i64, nat), WireError> {
        match take_be(s, 8) {
            Ok((x, n)) => Ok(((x as u64) as i64, n)),
            Err(e) => Err(e),
        }
    }

    open spec fn spec_skip(s: Seq<u8>) -> Result<nat, WireError> {
        fixed_skip(s, 8)
    }

    fn sync_unwiring<W: Unwire>(wire: &mut W) -> (r: Result<i64, WireError>) {
        let ghost s = wire.unread();
        match wire.sync_unwire_be(8) {
            Ok(x) => {
                proof {
                    lemma_pow256_values();
                    if s.len() >= 8 {
                        lemma_be_decode_bound(s.take(8));
                    }
                }
                Ok((x as u64) as i64)
            },
            Err(e) => Err(e),
        }
    }

    fn skip_one<W: Unwire>(wire: &mut W) -> (r: Result<u64, WireError>) {
        match wire.advance_position(8) {
            Ok(()) => Ok(8),
            Err(e) => Err(e),
        }
    }

    fn bytes_length<W: Unwire>(wire: &mut W, count: u64) -> (r: Result<u64, WireError>) {
        proof {
            assert((|x: Seq<u8>| Self::spec_skip(x)) =~= (|x: Seq<u8>| fixed_skip(x, 8 as nat)));
        }
        fixed_bytes_length(wire, count, 8)
    }

    proof fn lemma_unwire_bounds(s: Seq<u8>) {
    }

    proof fn lemma_skip_agrees(s: Seq<u8>) {
    }

    proof fn lemma_unwire_extends(s: Seq<u8>, t: Seq<u8>) {
        lemma_take_be_extends(s, t, 8);
    }

    proof fn lemma_roundtrip(v: i64, rest: Seq<u8>) {
        lemma_pow256_values();
        lemma_take_be_roundtrip((v as u64) as nat, 8, rest);
        assert(((v as u64) as i64) == v) by (bit_vector);
    }
}

/// A `i128` is read from 16 big-endian bytes.
impl Unwiring for i128 {
    open spec fn spec_unwire(s: Seq<u8>) -> Result<(i128, nat), WireError> {
        match take_be(s, 16) {
            Ok((x, n)) => Ok(((x as u128) as i128, n)),
            Err(e) => Err(e),
        }
    }

    open spec fn spec_skip(s: Seq<u8>) -> Result<nat, WireError> {
        fixed_skip(s, 16)
    }

    fn sync_unwiring<W: Unwire>(wire: &mut W) -> (r: Result<i128, WireError>) {
        let ghost s = wire.unread();
        match wire.sync_unwire_be(16) {
            Ok(x) => {
                proof {
                    lemma_pow256_values();
                    if s.len() >= 16 {
                        lemma_be_decode_bound(s.take(16));
                    }
                }
                Ok(x as i128)
            },
            Err(e) => Err(e),
        }
    }

    fn skip_one<W: Unwire>(wire: &mut W) -> (r: Result<u64, WireError>) {
        match wire.advance_position(16) {
            Ok(()) => Ok(16),
            Err(e) => Err(e),
        }
    }

    fn bytes_length<W: Unwire>(wire: &mut W, count: u64) -> (r: Result<u64, WireError>) {
        proof {
            assert((|x: Seq<u8>| Self::spec_skip(x)) =~= (|x: Seq<u8>| fixed_skip(x, 16 as nat)));
        }
        fixed_bytes_length(wire, count, 16)
    }

    proof fn lemma_unwire_bounds(s: Seq<u8>) {
    }

    proof fn lemma_skip_agrees(s: Seq<u8>) {
    }

    proof fn lemma_unwire_extends(s: Seq<u8>, t: Seq<u8>) {
        lemma_take_be_extends(s, t, 16);
    }

    proof fn lemma_roundtrip(v: i128, rest: Seq<u8>) {
        lemma_pow256_values();
        lemma_take_be_roundtrip((v as u128) as nat, 16, rest);
        assert(((v as u128) as i128) == v) by (bit_vector);
    }
}

/// A `bool` is read from one byte; every byte but zero reads as `true`.
impl Unwiring for bool {
    open spec fn spec_unwire(s: Seq<u8>) -> Result<(bool, nat), WireError> {
        match take_be(s, 1) {
            Ok((x, n)) => Ok((x != 0, n)),
            Err(e) => Err(e),
        }
    }

    open spec fn spec_skip(s: Seq<u8>) -> Result<nat, WireError> {
        fixed_skip(s, 1)
    }

    fn sync_unwiring<W: Unwire>(wire: &mut W) -> (r: Result<bool, WireError>) {
        let ghost s = wire.unread();
        proof {
            lemma_pow256_values();
            if s.len() >= 1 {
                lemma_be_decode_bound(s.take(1));
            }
        }
        match wire.sync_unwire_be(1) {
            Ok(x) => Ok(x != 0),
            Err(e) => Err(e),
        }
    }

    fn skip_one<W: Unwire>(wire: &mut W) -> (r: Result<u64, WireError>) {
        match wire.advance_position(1) {
            Ok(()) => Ok(1),
            Err(e) => Err(e),
        }
    }

    fn bytes_length<W: Unwire>(wire: &mut W, count: u64) -> (r: Result<u64, WireError>) {
        proof {
            assert((|x: Seq<u8>| Self::spec_skip(x)) =~= (|x: Seq<u8>| fixed_skip(x, 1 as nat)));
        }
        fixed_bytes_length(wire, count, 1)
    }

    proof fn lemma_unwire_bounds(s: Seq<u8>) {
    }

    proof fn lemma_skip_agrees(s: Seq<u8>) {
    }

    proof fn lemma_unwire_extends(s: Seq<u8>, t: Seq<u8>) {
        lemma_take_be_extends(s, t, 1);
    }

    proof fn lemma_roundtrip(v: bool, rest: Seq<u8>) {
        lemma_pow256_values();
        lemma_take_be_roundtrip(if v { 1 } else { 0 }, 1, rest);
    }
}

/// The unit value is read from one byte, which must be zero.
impl Unwiring for () {
    open spec fn spec_unwire(s: Seq<u8>) -> Result<((), nat), WireError> {
        match take_be(s, 1) {
            Ok((x, n)) => if x == 0 {
                Ok(((), n))
            } else {
                Err(WireError::InvalidData)
            },
            Err(e) => Err(e),
        }
    }

    open spec fn spec_skip(s: Seq<u8>) -> Result<nat, WireError> {
        fixed_skip(s, 1)
    }

    fn sync_unwiring<W: Unwire>(wire: &mut W) -> (r: Result<(), WireError>) {
        let ghost s = wire.unread();
        proof {
            lemma_pow256_values();
            if s.len() >= 1 {
                lemma_be_decode_bound(s.take(1));
            }
        }
        match wire.sync_unwire_be(1) {
            Ok(x) => if x == 0 {
                Ok(())
            } else {
                Err(WireError::InvalidData)
            },
            Err(e) => Err(e),
        }
    }

    fn skip_one<W: Unwire>(wire: &mut W) -> (r: Result<u64, WireError>) {
        match wire.advance_position(1) {
            Ok(()) => Ok(1),
            Err(e) => Err(e),
        }
    }

    fn bytes_length<W: Unwire>(wire: &mut W, count: u64) -> (r: Result<u64, WireError>) {
        proof {
            assert((|x: Seq<u8>| Self::spec_skip(x)) =~= (|x: Seq<u8>| fixed_skip(x, 1 as nat)));
        }
        fixed_bytes_length(wire, count, 1)
    }

    proof fn lemma_unwire_bounds(s: Seq<u8>) {
    }

    proof fn lemma_skip_agrees(s: Seq<u8>) {
    }

    proof fn lemma_unwire_extends(s: Seq<u8>, t: Seq<u8>) {
        lemma_take_be_extends(s, t, 1);
    }

    proof fn lemma_roundtrip(v: (), rest: Seq<u8>) {
        lemma_pow256_values();
        lemma_take_be_roundtrip(0, 1, rest);
    }
}


/// An in-memory unwire over a borrowed buffer.
///
/// Before a value is read, the length walk checks that the whole value lies within
/// the buffer.
pub struct BufUnWire<'a> {
    reader: UnsafeReader<'a>,
}

impl<'a> BufUnWire<'a> {
    /// The bytes not read yet.
    pub closed spec fn remaining(&self) -> Seq<u8> {
        self.reader.unread()
    }

    /// An unwire at the start of `buffer`.
    pub fn new(buffer: &'a [u8]) -> (r: Self)
        ensures
            r.remaining() == buffer@,
    {
        let reader = UnsafeReader::new(buffer);
        proof {
            reader.lemma_unread();
        }
        assert(buffer@.subrange(0, buffer@.len() as int) =~= buffer@);
        BufUnWire { reader }
    }

    /// Unwire a value from the buffer.
    ///
    /// Fails with the length walk's error where the value's length headers do not
    /// fit, and with the decoder's error where its bytes do not decode; in the first
    /// case nothing is read, in the second the read position has only moved forward.
    pub fn unwire<T: Unwiring>(&mut self) -> (r: Result<T, WireError>)
        ensures
            match T::spec_skip(old(self).remaining()) {
                Err(e) => r == Err::<T, WireError>(e) && final(self).remaining() == old(self).remaining(),
                Ok(_) => match T::spec_unwire(old(self).remaining()) {
                    Ok((v, n)) => r is Ok && r->Ok_0.deep_view() == v && final(self).remaining()
                        == old(self).remaining().skip(n as int),
                    Err(e) => r == Err::<T, WireError>(e) && read_on(old(self).remaining(), final(self).remaining()),
                },
            },
    {
        self.reader.sync_unwire::<T>()
    }
}

impl<'a> UnsafeReader<'a> {
    /// The unread bytes are the buffer from the read position on.
    pub proof fn lemma_unread(&self)
        ensures
            self.unread() == self.buffer().subrange(self.pos() as int, self.buffer().len() as int),
    {
    }

    /// Unwire a value, after checking with the length walk that it lies within the
    /// buffer. Where the walk fails nothing is read; where decoding fails the read
    /// position has only moved forward.
    pub fn sync_unwire<T: Unwiring>(&mut self) -> (r: Result<T, WireError>)
        ensures
            match T::spec_skip(old(self).unread()) {
                Err(e) => r == Err::<T, WireError>(e) && final(self).unread() == old(self).unread(),
                Ok(_) => match T::spec_unwire(old(self).unread()) {
                    Ok((v, n)) => r is Ok && r->Ok_0.deep_view() == v && final(self).unread()
                        == old(self).unread().skip(n as int),
                    Err(e) => r == Err::<T, WireError>(e) && read_on(old(self).unread(), final(self).unread()),
                },
            },
    {
        proof {
            use_type_invariant(&*self);
        }
        let pos = self.position;
        let mut temp = UnsafeReader { slice: self.slice, source_buffer_len: self.source_buffer_len, position: pos };
        let ghost s = self.unread();
        assert(temp.unread() == s);
        proof {
            lemma_skip_n_one(|x: Seq<u8>| T::spec_skip(x), s);
            T::lemma_unwire_bounds(s);
        }
        let len = match T::bytes_length(&mut temp, 1) {
            Ok(len) => len,
            Err(e) => {
                return Err(e);
            },
        };
        let can_read = (pos as u128) + (len as u128) <= (self.source_buffer_len as u128);
        if can_read {
            T::sync_unwiring(self)
        } else {
            Err(WireError::OutOfBounds)
        }
    }
}

/// The length walk over one value is the value's own.
pub proof fn lemma_skip_n_one(f: spec_fn(Seq<u8>) -> Result<nat, WireError>, s: Seq<u8>)
    ensures
        skip_n(f, s, 1) == f(s),
{
    reveal_with_fuel(skip_n, 2);
}

} // verus!
