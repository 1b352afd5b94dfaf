//! Writing values to a wire.
use vstd::prelude::*;

use crate::endian::{be_encode, push_be};
use crate::error::WireError;

verus! {

/// A byte sink that values are wired to.
pub trait Wire: Sized {
    /// Everything written to the wire so far.
    spec fn written(&self) -> Seq<u8>;

    /// Append `bytes` to the wire.
    fn sync_wire_all(&mut self, bytes: &[u8]) -> (r: Result<(), WireError>)
        ensures
            r is Ok,
            final(self).written() == old(self).written() + bytes@,
    ;

    /// Append the `n` low bytes of `v`, most significant first.
    fn sync_wire_be(&mut self, v: u128, n: usize) -> (r: Result<(), WireError>)
        requires
            n <= 16,
        ensures
            r is Ok,
            final(self).written() == old(self).written() + be_encode(v as nat, n as nat),
    ;

    /// Append the eight big-endian bytes of `n`.
    fn sync_wire_u64(&mut self, n: &u64) -> (r: Result<(), WireError>)
        ensures
            r is Ok,
            final(self).written() == old(self).written() + be_encode(*n as nat, 8),
    ;

    /// Make room for `add` more bytes, where the wire allows it.
    fn reserve_capacity(&mut self, add: usize)
        ensures
            final(self).written() == old(self).written(),
    ;
}

impl Wire for Vec<u8> {
    open spec fn written(&self) -> Seq<u8> {
        self@
    }

    fn sync_wire_all(&mut self, bytes: &[u8]) -> (r: Result<(), WireError>) {
        let ghost start = self@;
        let mut i: usize = 0;
        while i < bytes.len()
            invariant
                i <= bytes@.len(),
                self@ =~= start + bytes@.subrange(0, i as int),
            decreases bytes@.len() - i,
        {
            self.push(bytes[i]);
            i = i + 1;
        }
        assert(bytes@.subrange(0, bytes@.len() as int) =~= bytes@);
        Ok(())
    }

    fn sync_wire_be(&mut self, v: u128, n: usize) -> (r: Result<(), WireError>) {
        push_be(self, v, n);
        Ok(())
    }

    fn sync_wire_u64(&mut self, n: &u64) -> (r: Result<(), WireError>) {
        push_be(self, *n as u128, 8);
        Ok(())
    }

    fn reserve_capacity(&mut self, add: usize) {
        self.reserve(add);
    }
}

/// Wire the value `t` to `wire`.
pub fn sync_wire<W: Wire, T: Wiring>(wire: &mut W, t: &T) -> (r: Result<(), WireError>)
    ensures
        r is Ok,
        final(wire).written() == old(wire).written() + T::spec_wire(t.deep_view()),
        T::spec_valid(t.deep_view()),
{
    t.sync_wiring(wire)
}

/// A value that can be written to a wire.
///
/// The bytes depend on the value's model (`deep_view`) alone.
pub trait Wiring: DeepView + Sized {
    /// The bytes a value whose model is `v` is wired to.
    spec fn spec_wire(v: Self::V) -> Seq<u8>;

    /// The models that survive a trip over the wire; every value that is wired
    /// has one.
    spec fn spec_valid(v: Self::V) -> bool;

    /// Append the bytes of `self` to `wire`.
    fn sync_wiring<W: Wire>(&self, wire: &mut W) -> (r: Result<(), WireError>)
        ensures
            r is Ok,
            final(wire).written() == old(wire).written() + Self::spec_wire(self.deep_view()),
            Self::spec_valid(self.deep_view()),
    ;
}

impl Wiring for u8 {
    open spec fn spec_wire(v: u8) -> Seq<u8> {
        be_encode(v as nat, 1)
    }

    open spec fn spec_valid(v: u8) -> bool {
        true
    }

    fn sync_wiring<W: Wire>(&self, wire: &mut W) -> (r: Result<(), WireError>) {
        wire.sync_wire_be(*self as u128, 1)
    }
}

impl Wiring for u16 {
    open spec fn spec_wire(v: u16) -> Seq<u8> {
        be_encode(v as nat, 2)
    }

    open spec fn spec_valid(v: u16) -> bool {
        true
    }

    fn sync_wiring<W: Wire>(&self, wire: &mut W) -> (r: Result<(), WireError>) {
        wire.sync_wire_be(*self as u128, 2)
    }
}

impl Wiring for u32 {
    open spec fn spec_wire(v: u32) -> Seq<u8> {
        be_encode(v as nat, 4)
    }

    open spec fn spec_valid(v: u32) -> bool {
        true
    }

    fn sync_wiring<W: Wire>(&self, wire: &mut W) -> (r: Result<(), WireError>) {
        wire.sync_wire_be(*self as u128, 4)
    }
}

impl Wiring for u64 {
    open spec fn spec_wire(v: u64) -> Seq<u8> {
        be_encode(v as nat, 8)
    }

    open spec fn spec_valid(v: u64) -> bool {
        true
    }

    fn sync_wiring<W: Wire>(&self, wire: &mut W) -> (r: Result<(), WireError>) {
        wire.sync_wire_u64(self)
    }
}

impl Wiring for u128 {
    open spec fn spec_wire(v: u128) -> Seq<u8> {
        be_encode(v as nat, 16)
    }

    open spec fn spec_valid(v: u128) -> bool {
        true
    }

    fn sync_wiring<W: Wire>(&self, wire: &mut W) -> (r: Result<(), WireError>) {
        wire.sync_wire_be(*self, 16)
    }
}

impl Wiring for i8 {
    open spec fn spec_wire(v: i8) -> Seq<u8> {
        be_encode((v as u8) as nat, 1)
    }

    open spec fn spec_valid(v: i8) -> bool {
        true
    }

    fn sync_wiring<W: Wire>(&self, wire: &mut W) -> (r: Result<(), WireError>) {
        wire.sync_wire_be((*self as u8) as u128, 1)
    }
}

impl Wiring for i16 {
    open spec fn spec_wire(v: i16) -> Seq<u8> {
        be_encode((v as u16) as nat, 2)
    }

    open spec fn spec_valid(v: i16) -> bool {
        true
    }

    fn sync_wiring<W: Wire>(&self, wire: &mut W) -> (r: Result<(), WireError>) {
        wire.sync_wire_be((*self as u16) as u128, 2)
    }
}

impl Wiring for i32 {
    open spec fn spec_wire(v: i32) -> Seq<u8> {
        be_encode((v as u32) as nat, 4)
    }

    open spec fn spec_valid(v: i32) -> bool {
        true
    }

    fn sync_wiring<W: Wire>(&self, wire: &mut W) -> (r: Result<(), WireError>) {
        wire.sync_wire_be((*self as u32) as u128, 4)
    }
}

impl Wiring for i64 {
    open spec fn spec_wire(v: i64) -> Seq<u8> {
        be_encode((v as u64) as nat, 8)
    }

    open spec fn spec_valid(v: i64) -> bool {
        true
    }

    fn sync_wiring<W: Wire>(&self, wire: &mut W) -> (r: Result<(), WireError>) {
        wire.sync_wire_be((*self as u64) as u128, 8)
    }
}

impl Wiring for i128 {
    open spec fn spec_wire(v: i128) -> Seq<u8> {
        be_encode((v as u128) as nat, 16)
    }

    open spec fn spec_valid(v: i128) -> bool {
        true
    }

    fn sync_wiring<W: Wire>(&self, wire: &mut W) -> (r: Result<(), WireError>) {
        wire.sync_wire_be(*self as u128, 16)
    }
}

/// A `usize` travels as a `u64`.
impl Wiring for usize {
    open spec fn spec_wire(v: usize) -> Seq<u8> {
        be_encode(v as nat, 8)
    }

    open spec fn spec_valid(v: usize) -> bool {
        true
    }

    fn sync_wiring<W: Wire>(&self, wire: &mut W) -> (r: Result<(), WireError>) {
        wire.sync_wire_be(*self as u128, 8)
    }
}

/// A `char` travels as the `u32` of its scalar value.
impl Wiring for char {
    open spec fn spec_wire(v: char) -> Seq<u8> {
        be_encode((v as u32) as nat, 4)
    }

    open spec fn spec_valid(v: char) -> bool {
        true
    }

    fn sync_wiring<W: Wire>(&self, wire: &mut W) -> (r: Result<(), WireError>) {
        wire.sync_wire_be((*self as u32) as u128, 4)
    }
}

/// `true` travels as `1`, `false` as `0`.
impl Wiring for bool {
    open spec fn spec_wire(v: bool) -> Seq<u8> {
        be_encode(if v { 1 } else { 0 }, 1)
    }

    open spec fn spec_valid(v: bool) -> bool {
        true
    }

    fn sync_wiring<W: Wire>(&self, wire: &mut W) -> (r: Result<(), WireError>) {
        let b: u128 = if *self { 1 } else { 0 };
        wire.sync_wire_be(b, 1)
    }
}

/// The unit value travels as one zero byte, so that a receiver sees it arrive.
impl Wiring for () {
    open spec fn spec_wire(v: ()) -> Seq<u8> {
        be_encode(0, 1)
    }

    open spec fn spec_valid(v: ()) -> bool {
        true
    }

    fn sync_wiring<W: Wire>(&self, wire: &mut W) -> (r: Result<(), WireError>) {
        wire.sync_wire_be(0, 1)
    }
}


/// An in-memory wire over a borrowed byte vector.
pub struct BufWire<'a> {
    /// The caller's vector, which holds exactly the bytes wired so far.
    pub wire: &'a mut Vec<u8>,
}

impl<'a> BufWire<'a> {
    /// The bytes wired so far.
    pub open spec fn bytes(&self) -> Seq<u8> {
        self.wire@
    }

    /// Take `wire` and empty it.
    pub fn new(wire: &'a mut Vec<u8>) -> (r: Self)
        ensures
            r.bytes() == Seq::<u8>::empty(),
            *final(wire) == *final(r.wire),
    {
        wire.clear();
        BufWire { wire }
    }

    /// Wire `value` after what was wired before.
    pub fn wire<T: Wiring>(&mut self, value: &T) -> (r: Result<(), WireError>)
        ensures
            r is Ok,
            final(self).bytes() == old(self).bytes() + T::spec_wire(value.deep_view()),
            T::spec_valid(value.deep_view()),
            *final(final(self).wire) == *final(old(self).wire),
    {
        value.sync_wiring(self.wire)
    }
}

/// A pair of channel ends, one to send on and one to receive from.
pub struct WireChannel<Sender, Receiver> {
    pub sender: Sender,
    pub receiver: Receiver,
}

impl<S, R> WireChannel<S, R> {
    /// Pair `sender` and `receiver`.
    pub fn new(sender: S, receiver: R) -> (r: Self)
        ensures
            r.sender == sender,
            r.receiver == receiver,
    {
        WireChannel { sender, receiver }
    }

    /// The two ends, sender first.
    pub fn into_inner(self) -> (r: (S, R))
        ensures
            r.0 == self.sender,
            r.1 == self.receiver,
    {
        (self.sender, self.receiver)
    }
}

/// The handle of a wire configuration that has no listener behind it.
#[derive(Debug, Clone, Copy)]
pub struct NoHandle;

} // verus!
