//! Events between the two ends of a wired connection, and the tables of streams
//! multiplexed over it.
use vstd::prelude::*;

use crate::endian::{be_encode, lemma_be_decode_bound, lemma_pow256_values};
use crate::error::WireError;
use crate::unwire::{
    lemma_take_be_extends, lemma_take_be_roundtrip, shift, take_be, Unwire, Unwiring,
};
use crate::wire::{Wire, Wiring};

verus! {

/// What goes over a wired connection.
#[derive(Debug)]
pub enum WiringEvent<T> {
    /// An event for the other end's handler.
    Event(T),
    /// Bytes written to the stream `stream_id`; `local` tells whose end opened it.
    Message { stream_id: u64, local: bool, message: Vec<u8> },
    /// The stream `stream_id` went away; `local` tells whose end opened it.
    Drop { stream_id: u64, local: bool },
}

/// The model of a wiring event.
pub ghost enum WiringEventModel<V> {
    Event(V),
    Message(u64, bool, Seq<u8>),
    Drop(u64, bool),
}

impl<T: DeepView> DeepView for WiringEvent<T> {
    type V = WiringEventModel<T::V>;

    open spec fn deep_view(&self) -> WiringEventModel<T::V> {
        match self {
            WiringEvent::Event(e) => WiringEventModel::Event(e.deep_view()),
            WiringEvent::Message { stream_id, local, message } => WiringEventModel::Message(
                *stream_id,
                *local,
                message@,
            ),
            WiringEvent::Drop { stream_id, local } => WiringEventModel::Drop(*stream_id, *local),
        }
    }
}

/// A wiring event travels as a tag byte (`0` event, `1` message, `2` drop), then its
/// fields in order.
impl<T: Wiring> Wiring for WiringEvent<T> {
    open spec fn spec_wire(v: WiringEventModel<T::V>) -> Seq<u8> {
        match v {
            WiringEventModel::Event(e) => be_encode(0, 1) + T::spec_wire(e),
            WiringEventModel::Message(id, local, m) => be_encode(1, 1) + <(u64, bool, Vec<u8>) as Wiring>::spec_wire((id, local, m)),
            WiringEventModel::Drop(id, local) => be_encode(2, 1) + <(u64, bool) as Wiring>::spec_wire((id, local)),
        }
    }

    open spec fn spec_valid(v: WiringEventModel<T::V>) -> bool {
        match v {
            WiringEventModel::Event(e) => T::spec_valid(e),
            WiringEventModel::Message(id, local, m) => m.len() <= u64::MAX,
            WiringEventModel::Drop(id, local) => true,
        }
    }

    fn sync_wiring<W: Wire>(&self, wire: &mut W) -> (r: Result<(), WireError>) {
        match self {
            WiringEvent::Event(e) => {
                let _ = wire.sync_wire_be(0, 1);
                e.sync_wiring(wire)
            },
            WiringEvent::Message { stream_id, local, message } => {
                let _ = wire.sync_wire_be(1, 1);
                let _ = stream_id.sync_wiring(wire);
                let _ = local.sync_wiring(wire);
                let r = message.sync_wiring(wire);
                assert(message.deep_view() =~= message@);
                r
            },
            WiringEvent::Drop { stream_id, local } => {
                let _ = wire.sync_wire_be(2, 1);
                let _ = stream_id.sync_wiring(wire);
                local.sync_wiring(wire)
            },
        }
    }
}

impl<T: Unwiring> Unwiring for WiringEvent<T> {
    open spec fn spec_unwire(s: Seq<u8>) -> Result<(WiringEventModel<T::V>, nat), WireError> {
        match take_be(s, 1) {
            Err(e) => Err(e),
            Ok((tag, k)) => if tag == 0 {
                match T::spec_unwire(s.skip(k as int)) {
                    Ok((e, n)) => Ok((WiringEventModel::Event(e), k + n)),
                    Err(e) => Err(e),
                }
            } else if tag == 1 {
                match <(u64, bool, Vec<u8>) as Unwiring>::spec_unwire(s.skip(k as int)) {
                    Ok(((id, local, m), n)) => Ok((WiringEventModel::Message(id, local, m), k + n)),
                    Err(e) => Err(e),
                }
            } else if tag == 2 {
                match <(u64, bool) as Unwiring>::spec_unwire(s.skip(k as int)) {
                    Ok(((id, local), n)) => Ok((WiringEventModel::Drop(id, local), k + n)),
                    Err(e) => Err(e),
                }
            } else {
                Err(WireError::InvalidData)
            },
        }
    }

    open spec fn spec_skip(s: Seq<u8>) -> Result<nat, WireError> {
        match take_be(s, 1) {
            Err(e) => Err(e),
            Ok((tag, k)) => if tag == 0 {
                shift(k, T::spec_skip(s.skip(k as int)))
            } else if tag == 1 {
                shift(k, <(u64, bool, Vec<u8>) as Unwiring>::spec_skip(s.skip(k as int)))
            } else if tag == 2 {
                shift(k, <(u64, bool) as Unwiring>::spec_skip(s.skip(k as int)))
            } else {
                Err(WireError::InvalidData)
            },
        }
    }

    fn sync_unwiring<W: Unwire>(wire: &mut W) -> (r: Result<WiringEvent<T>, WireError>) {
        let ghost s = wire.unread();
        proof {
            lemma_pow256_values();
            if s.len() >= 1 {
                lemma_be_decode_bound(s.take(1));
            }
        }
        let tag = match wire.sync_unwire_be(1) {
            Ok(x) => x,
            Err(e) => {
                return Err(e);
            },
        };
        let ghost s1 = wire.unread();
        if tag == 0 {
            proof {
                T::lemma_unwire_bounds(s1);
            }
            match T::sync_unwiring(wire) {
                Ok(e) => {
                    assert(wire.unread() =~= s.skip((1 + T::spec_unwire(s1)->Ok_0.1) as int));
                    Ok(WiringEvent::Event(e))
                },
                Err(e) => {
                    Err(e)
                },
            }
        } else if tag == 1 {
            proof {
                <(u64, bool, Vec<u8>) as Unwiring>::lemma_unwire_bounds(s1);
            }
            match <(u64, bool, Vec<u8>) as Unwiring>::sync_unwiring(wire) {
                Ok((stream_id, local, message)) => {
                    assert(wire.unread() =~= s.skip((1 + <(u64, bool, Vec<u8>) as Unwiring>::spec_unwire(s1)->Ok_0.1) as int));
                    assert(message.deep_view() =~= message@);
                    Ok(WiringEvent::Message { stream_id, local, message })
                },
                Err(e) => {
                    Err(e)
                },
            }
        } else if tag == 2 {
            proof {
                <(u64, bool) as Unwiring>::lemma_unwire_bounds(s1);
            }
            match <(u64, bool) as Unwiring>::sync_unwiring(wire) {
                Ok((stream_id, local)) => {
                    assert(wire.unread() =~= s.skip((1 + <(u64, bool) as Unwiring>::spec_unwire(s1)->Ok_0.1) as int));
                    Ok(WiringEvent::Drop { stream_id, local })
                },
                Err(e) => {
                    Err(e)
                },
            }
        } else {
            Err(WireError::InvalidData)
        }
    }

    #[verifier::rlimit(40)]
    fn skip_one<W: Unwire>(wire: &mut W) -> (r: Result<u64, WireError>) {
        proof {
            lemma_pow256_values();
        }
        let ghost cur = wire.unread();
        proof {
            if cur.len() >= 1 {
                lemma_be_decode_bound(cur.take(1));
            }
        }
        let tag = match wire.sync_unwire_be(1) {
            Ok(x) => x,
            Err(e) => {
                return Err(e);
            },
        };
        let ghost cur1 = wire.unread();
        let m = if tag == 0 {
            match T::skip_one(wire) {
                Ok(m) => m,
                Err(e) => {
                    return Err(e);
                },
            }
        } else if tag == 1 {
            proof {
                <(u64, bool, Vec<u8>) as Unwiring>::lemma_unwire_bounds(cur1);
            }
            match <(u64, bool, Vec<u8>) as Unwiring>::skip_one(wire) {
                Ok(m) => m,
                Err(e) => {
                    return Err(e);
                },
            }
        } else if tag == 2 {
            proof {
                <(u64, bool) as Unwiring>::lemma_unwire_bounds(cur1);
            }
            match <(u64, bool) as Unwiring>::skip_one(wire) {
                Ok(m) => m,
                Err(e) => {
                    return Err(e);
                },
            }
        } else {
            return Err(WireError::InvalidData);
        };
        assert(wire.unread() =~= cur.skip((1 + m) as int));
        Ok(1 + m)
    }

    proof fn lemma_unwire_bounds(s: Seq<u8>) {
        T::lemma_unwire_bounds(s.skip(1));
        <(u64, bool, Vec<u8>) as Unwiring>::lemma_unwire_bounds(s.skip(1));
        <(u64, bool) as Unwiring>::lemma_unwire_bounds(s.skip(1));
    }

    proof fn lemma_skip_agrees(s: Seq<u8>) {
        T::lemma_skip_agrees(s.skip(1));
        <(u64, bool, Vec<u8>) as Unwiring>::lemma_skip_agrees(s.skip(1));
        <(u64, bool) as Unwiring>::lemma_skip_agrees(s.skip(1));
    }

    proof fn lemma_unwire_extends(s: Seq<u8>, t: Seq<u8>) {
        lemma_take_be_extends(s, t, 1);
        if s.len() >= 1 {
            T::lemma_unwire_extends(s.skip(1), t);
            <(u64, bool, Vec<u8>) as Unwiring>::lemma_unwire_extends(s.skip(1), t);
            <(u64, bool) as Unwiring>::lemma_unwire_extends(s.skip(1), t);
        }
    }

    proof fn lemma_roundtrip(v: WiringEventModel<T::V>, rest: Seq<u8>) {
        lemma_pow256_values();
        let all = Self::spec_wire(v) + rest;
        match v {
            WiringEventModel::Event(e) => {
                let tail = T::spec_wire(e) + rest;
                lemma_take_be_roundtrip(0, 1, tail);
                assert(all =~= be_encode(0, 1) + tail);
                assert(all.skip(1) =~= tail);
                T::lemma_roundtrip(e, rest);
            },
            WiringEventModel::Message(id, local, m) => {
                let tail = <(u64, bool, Vec<u8>) as Wiring>::spec_wire((id, local, m)) + rest;
                lemma_take_be_roundtrip(1, 1, tail);
                assert(all =~= be_encode(1, 1) + tail);
                assert(all.skip(1) =~= tail);
                <(u64, bool, Vec<u8>) as Unwiring>::lemma_roundtrip((id, local, m), rest);
            },
            WiringEventModel::Drop(id, local) => {
                let tail = <(u64, bool) as Wiring>::spec_wire((id, local)) + rest;
                lemma_take_be_roundtrip(2, 1, tail);
                assert(all =~= be_encode(2, 1) + tail);
                assert(all.skip(1) =~= tail);
                <(u64, bool) as Unwiring>::lemma_roundtrip((id, local), rest);
            },
        }
    }
}


/// A set of streams, each named by its id and by whether this end opened it.
pub struct StreamKeys {
    local: std::collections::HashSet<u64>,
    remote: std::collections::HashSet<u64>,
}

impl View for StreamKeys {
    type V = Set<(u64, bool)>;

    closed spec fn view(&self) -> Set<(u64, bool)> {
        Set::new(
            |k: (u64, bool)|
                if k.1 {
                    self.local@.contains(k.0)
                } else {
                    self.remote@.contains(k.0)
                },
        )
    }
}

impl StreamKeys {
    /// No streams.
    pub fn new() -> (r: Self)
        ensures
            r@ == Set::<(u64, bool)>::empty(),
    {
        broadcast use vstd::std_specs::hash::group_hash_axioms;

        let r = StreamKeys {
            local: std::collections::HashSet::new(),
            remote: std::collections::HashSet::new(),
        };
        assert(r@ =~= Set::<(u64, bool)>::empty());
        r
    }

    /// Whether the stream is in the set.
    pub fn contains(&self, stream_id: u64, local: bool) -> (r: bool)
        ensures
            r == self@.contains((stream_id, local)),
    {
        broadcast use vstd::std_specs::hash::group_hash_axioms;

        if local {
            self.local.contains(&stream_id)
        } else {
            self.remote.contains(&stream_id)
        }
    }

    /// Add the stream.
    pub fn insert(&mut self, stream_id: u64, local: bool)
        ensures
            final(self)@ == old(self)@.insert((stream_id, local)),
    {
        broadcast use vstd::std_specs::hash::group_hash_axioms;

        if local {
            self.local.insert(stream_id);
        } else {
            self.remote.insert(stream_id);
        }
        assert(self@ =~= old(self)@.insert((stream_id, local)));
    }

    /// Remove the stream; whether it was there.
    pub fn remove(&mut self, stream_id: u64, local: bool) -> (r: bool)
        ensures
            r == old(self)@.contains((stream_id, local)),
            final(self)@ == old(self)@.remove((stream_id, local)),
    {
        broadcast use vstd::std_specs::hash::group_hash_axioms;

        let r = if local {
            self.local.remove(&stream_id)
        } else {
            self.remote.remove(&stream_id)
        };
        assert(self@ =~= old(self)@.remove((stream_id, local)));
        r
    }
}

/// What the wired end does about a dropped stream.
#[derive(Debug)]
pub enum WiredDrop<T> {
    /// The stream was not open; nothing to do.
    Unknown,
    /// The stream was open and is now closed; the unwired end is to forget it too,
    /// and the remote end is told with `notify_remote` where that is given.
    Dropped { notify_remote: Option<WiringEvent<T>> },
}

/// The wired end's streams: those it opened (under ids counted up from one) and
/// those the remote end opened.
pub struct WiredStreams {
    stream_id: u64,
    streams: StreamKeys,
}

impl WiredStreams {
    /// Every stream this end opened has an id it already gave out.
    #[verifier::type_invariant]
    spec fn ids_given_out(&self) -> bool {
        forall|id: u64| #[trigger] self.streams@.contains((id, true)) ==> id <= self.stream_id
    }

    /// The id given to the latest stream this end opened; zero before the first.
    pub closed spec fn last_id(&self) -> u64 {
        self.stream_id
    }

    /// The open streams.
    pub closed spec fn open(&self) -> Set<(u64, bool)> {
        self.streams@
    }

    /// No streams yet.
    pub fn new() -> (r: Self)
        ensures
            r.last_id() == 0,
            r.open() == Set::<(u64, bool)>::empty(),
    {
        WiredStreams { stream_id: 0, streams: StreamKeys::new() }
    }

    /// Open a stream from this end: it gets the next id, which is wired to `wire` as a
    /// `u64` for the other end to accept the stream by; or nothing, with nothing
    /// wired, once the ids are used up.
    pub fn connect<W: Wire>(&mut self, wire: &mut W) -> (r: Option<u64>)
        ensures
            old(self).last_id() < u64::MAX ==> {
                &&& r == Some((old(self).last_id() + 1) as u64)
                &&& !old(self).open().contains(((old(self).last_id() + 1) as u64, true))
                &&& final(self).last_id() == old(self).last_id() + 1
                &&& final(self).open() == old(self).open().insert(((old(self).last_id() + 1) as u64, true))
                &&& final(wire).written() == old(wire).written() + <u64 as Wiring>::spec_wire(
                    (old(self).last_id() + 1) as u64,
                )
            },
            old(self).last_id() == u64::MAX ==> r is None && final(self).open() == old(self).open()
                && final(self).last_id() == old(self).last_id() && final(wire).written() == old(wire).written(),
    {
        proof {
            use_type_invariant(&*self);
        }
        if self.stream_id == u64::MAX {
            None
        } else {
            self.stream_id = self.stream_id + 1;
            let mut streams = StreamKeys::new();
            std::mem::swap(&mut streams, &mut self.streams);
            streams.insert(self.stream_id, true);
            self.streams = streams;
            let _ = self.stream_id.sync_wiring(wire);
            Some(self.stream_id)
        }
    }

    /// Record a stream the remote end opened.
    pub fn register_remote(&mut self, stream_id: u64)
        ensures
            final(self).last_id() == old(self).last_id(),
            final(self).open() == old(self).open().insert((stream_id, false)),
    {
        proof {
            use_type_invariant(&*self);
        }
        let mut streams = StreamKeys::new();
        std::mem::swap(&mut streams, &mut self.streams);
        streams.insert(stream_id, false);
        self.streams = streams;
    }

    /// Close a stream; where the drop comes from this side, tell the remote end, on
    /// which the stream has the other owner.
    pub fn drop_stream<T>(&mut self, stream_id: u64, local: bool, broadcast_to_remote: bool) -> (r: WiredDrop<T>)
        ensures
            final(self).last_id() == old(self).last_id(),
            final(self).open() == old(self).open().remove((stream_id, local)),
            !old(self).open().contains((stream_id, local)) ==> r is Unknown,
            old(self).open().contains((stream_id, local)) ==> match r {
                WiredDrop::Dropped { notify_remote } => if broadcast_to_remote {
                    notify_remote matches Some(WiringEvent::Drop { stream_id: id, local: l }) && id == stream_id && l == !local
                } else {
                    notify_remote is None
                },
                WiredDrop::Unknown => false,
            },
    {
        proof {
            use_type_invariant(&*self);
        }
        let mut streams = StreamKeys::new();
        std::mem::swap(&mut streams, &mut self.streams);
        let removed = streams.remove(stream_id, local);
        self.streams = streams;
        if removed {
            if broadcast_to_remote {
                WiredDrop::Dropped { notify_remote: Some(WiringEvent::Drop { stream_id, local: !local }) }
            } else {
                WiredDrop::Dropped { notify_remote: None }
            }
        } else {
            WiredDrop::Unknown
        }
    }

    /// The event that carries `message`, written to an open stream, to the remote
    /// end, on which the stream has the other owner; nothing where the stream is not
    /// open or there is no message.
    pub fn message<T>(&self, stream_id: u64, local: bool, message: Option<Vec<u8>>) -> (r: Option<WiringEvent<T>>)
        ensures
            match message {
                Some(m) => if self.open().contains((stream_id, local)) {
                    r matches Some(WiringEvent::Message { stream_id: id, local: l, message: mm }) && id == stream_id
                        && l == !local && mm == m
                } else {
                    r is None
                },
                None => r is None,
            },
    {
        match message {
            Some(m) => if self.streams.contains(stream_id, local) {
                Some(WiringEvent::Message { stream_id, local: !local, message: m })
            } else {
                None
            },
            None => None,
        }
    }
}

/// The unwired end's streams, to which messages from the remote end are delivered.
pub struct UnwiredStreams {
    streams: StreamKeys,
}

impl UnwiredStreams {
    /// The registered streams.
    pub closed spec fn open(&self) -> Set<(u64, bool)> {
        self.streams@
    }

    /// No streams yet.
    pub fn new() -> (r: Self)
        ensures
            r.open() == Set::<(u64, bool)>::empty(),
    {
        UnwiredStreams { streams: StreamKeys::new() }
    }

    /// Register a stream to deliver messages to.
    pub fn register(&mut self, stream_id: u64, local: bool)
        ensures
            final(self).open() == old(self).open().insert((stream_id, local)),
    {
        self.streams.insert(stream_id, local);
    }

    /// Whether a message for the stream is delivered.
    pub fn deliver(&self, stream_id: u64, local: bool) -> (r: bool)
        ensures
            r == self.open().contains((stream_id, local)),
    {
        self.streams.contains(stream_id, local)
    }

    /// Forget a stream; whether the wired end must close its half too, which is
    /// where the stream was registered and the drop came from the remote end.
    pub fn drop_stream(&mut self, stream_id: u64, local: bool, broadcast_to_wire: bool) -> (r: bool)
        ensures
            final(self).open() == old(self).open().remove((stream_id, local)),
            r == (old(self).open().contains((stream_id, local)) && broadcast_to_wire),
    {
        let removed = self.streams.remove(stream_id, local);
        removed && broadcast_to_wire
    }
}

/// What a multiplexed stream has received and its reader has not taken yet: the
/// current message and how far into it the reader is. A new message is taken only
/// once the current one is read through.
pub struct ReadBuffer {
    message: Vec<u8>,
    pos: usize,
}

impl View for ReadBuffer {
    type V = Seq<u8>;

    /// The bytes of the current message not read yet.
    closed spec fn view(&self) -> Seq<u8> {
        self.message@.skip(self.pos as int)
    }
}

impl ReadBuffer {
    #[verifier::type_invariant]
    spec fn within(self) -> bool {
        self.pos <= self.message@.len()
    }

    /// Nothing received yet.
    pub fn new() -> (r: Self)
        ensures
            r@ == Seq::<u8>::empty(),
    {
        let r = ReadBuffer { message: Vec::new(), pos: 0 };
        assert(r@ =~= Seq::<u8>::empty());
        r
    }

    /// Whether the current message is read through, so that the reader waits for
    /// the next one.
    pub fn needs_message(&self) -> (r: bool)
        ensures
            r == (self@.len() == 0),
    {
        proof {
            use_type_invariant(self);
        }
        self.pos == self.message.len()
    }

    /// Take the next message, once the current one is read through.
    pub fn refill(&mut self, message: Vec<u8>)
        requires
            old(self)@.len() == 0,
        ensures
            final(self)@ == message@,
    {
        *self = ReadBuffer { message, pos: 0 };
        assert(self@ =~= self.message@);
    }

    /// Hand the reader at most `max` bytes of the current message, in order.
    pub fn read(&mut self, max: usize) -> (r: Vec<u8>)
        ensures
            r@ == old(self)@.take(if max < old(self)@.len() { max as int } else { old(self)@.len() as int }),
            final(self)@ == old(self)@.skip(r@.len() as int),
    {
        proof {
            use_type_invariant(&*self);
        }
        let left = self.message.len() - self.pos;
        let n = if max < left { max } else { left };
        let mut out: Vec<u8> = Vec::with_capacity(n);
        let start = self.pos;
        let mut i: usize = 0;
        while i < n
            invariant
                i <= n,
                n <= left,
                left == self.message@.len() - start,
                start == self.pos,
                self.pos <= self.message@.len(),
                start + n <= self.message@.len(),
                self.message@.len() <= usize::MAX,
                out@ == self.message@.subrange(start as int, start + i),
            decreases n - i,
        {
            out.push(self.message[start + i]);
            i = i + 1;
            assert(out@ =~= self.message@.subrange(start as int, start + i));
        }
        let ghost before = self@;
        self.pos = start + n;
        assert(out@ =~= before.take(n as int));
        assert(self@ =~= before.skip(n as int));
        out
    }
}

/// What a multiplexed stream's writer has written since the last flush; a flush
/// sends it as one message.
pub struct WriteBuffer {
    pending: Vec<u8>,
}

impl View for WriteBuffer {
    type V = Seq<u8>;

    closed spec fn view(&self) -> Seq<u8> {
        self.pending@
    }
}

impl WriteBuffer {
    /// Nothing written.
    pub fn new() -> (r: Self)
        ensures
            r@ == Seq::<u8>::empty(),
    {
        WriteBuffer { pending: Vec::new() }
    }

    /// Add `bytes` after what is written; all of them are taken.
    pub fn write(&mut self, bytes: &[u8]) -> (r: usize)
        ensures
            r == bytes@.len(),
            final(self)@ == old(self)@ + bytes@,
    {
        let mut i: usize = 0;
        while i < bytes.len()
            invariant
                i <= bytes@.len(),
                self.pending@ == old(self)@ + bytes@.take(i as int),
            decreases bytes@.len() - i,
        {
            self.pending.push(bytes[i]);
            i = i + 1;
            assert(self.pending@ =~= old(self)@ + bytes@.take(i as int));
        }
        assert(bytes@.take(i as int) =~= bytes@);
        i
    }

    /// The message to send: everything written since the last flush, which starts
    /// the next message afresh.
    pub fn flush(&mut self) -> (r: Vec<u8>)
        ensures
            r@ == old(self)@,
            final(self)@ == Seq::<u8>::empty(),
    {
        let mut message: Vec<u8> = Vec::new();
        std::mem::swap(&mut message, &mut self.pending);
        message
    }
}

} // verus!
