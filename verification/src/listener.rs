//! Where a wire's peer can be reached, and the listener's table of open wires.
use vstd::prelude::*;
use vstd::utf8::encode_utf8;

use crate::compound::spec_wire_text;
use crate::endian::{be_encode, lemma_be_decode_bound, lemma_pow256_values};
use crate::error::WireError;
use crate::unwire::{
    lemma_take_be_extends, lemma_take_be_roundtrip, take_be, Unwire, Unwiring,
};
use crate::wire::{Wire, Wiring};

verus! {

/// What `url::Url::parse` makes of `text`: the serialization of the URL it parses
/// to, or nothing where `text` is not an absolute URL.
pub uninterp spec fn url_serialization(text: Seq<char>) -> Option<Seq<char>>;

/// `url::Url::parse`, then the serialization of the URL; a serialization parses back
/// to itself, as the `url` crate holds of every URL it builds.
#[verifier::external_body]
fn parse_url(text: &str) -> (r: Option<String>)
    ensures
        match r {
            Some(s) => url_serialization(text@) == Some(s@),
            None => url_serialization(text@) is None,
        },
        r matches Some(s) ==> url_serialization(s@) == Some(s@),
{
    match url::Url::parse(text) {
        Ok(u) => Some(u.into()),
        Err(_) => None,
    }
}

/// A parsed URL, held by its serialization, which parses back to itself.
#[derive(Debug)]
pub struct UrlText {
    text: String,
}

impl View for UrlText {
    type V = Seq<char>;

    closed spec fn view(&self) -> Seq<char> {
        self.text@
    }
}

impl UrlText {
    #[verifier::type_invariant]
    spec fn parses_to_itself(self) -> bool {
        url_serialization(self.text@) == Some(self.text@)
    }

    /// The URL that `text` parses to; nothing where `text` is not an absolute URL.
    pub fn parse(text: &str) -> (r: Option<UrlText>)
        ensures
            match url_serialization(text@) {
                Some(s) => r is Some && r->Some_0@ == s,
                None => r is None,
            },
    {
        match parse_url(text) {
            Some(s) => Some(UrlText { text: s }),
            None => None,
        }
    }

    /// The serialization.
    pub fn as_str(&self) -> (r: &str)
        ensures
            r@ == self@,
            url_serialization(r@) == Some(r@),
    {
        proof {
            use_type_invariant(self);
        }
        self.text.as_str()
    }
}

impl Clone for UrlText {
    /// The same URL.
    fn clone(&self) -> (r: Self)
        ensures
            r@ == self@,
    {
        proof {
            use_type_invariant(self);
        }
        UrlText { text: self.text.clone() }
    }
}

/// How to reach the other end of a wire.
#[derive(Debug, Clone)]
pub enum ConnectInfo {
    /// An address for a TCP stream, such as `"127.0.0.1:8080"`.
    TcpStream(String),
    /// A URL, for websocket or TLS transports.
    Url(UrlText),
}

/// The model of a `ConnectInfo` is its tag (`0` for a TCP address, `1` for a URL) and
/// its text.
impl DeepView for ConnectInfo {
    type V = (u8, Seq<char>);

    open spec fn deep_view(&self) -> (u8, Seq<char>) {
        match self {
            ConnectInfo::TcpStream(s) => (0, s@),
            ConnectInfo::Url(s) => (1, s@),
        }
    }
}

impl ConnectInfo {
    /// A URL connect info, where `text` parses as a URL.
    pub fn url(text: &str) -> (r: Option<ConnectInfo>)
        ensures
            match url_serialization(text@) {
                Some(s) => r is Some && r->Some_0.deep_view() == (1u8, s),
                None => r is None,
            },
    {
        match UrlText::parse(text) {
            Some(u) => Some(ConnectInfo::Url(u)),
            None => None,
        }
    }
}

/// A connect info travels as its tag byte, then its text.
impl Wiring for ConnectInfo {
    open spec fn spec_wire(v: (u8, Seq<char>)) -> Seq<u8> {
        be_encode(v.0 as nat, 1) + spec_wire_text(v.1)
    }

    open spec fn spec_valid(v: (u8, Seq<char>)) -> bool {
        &&& encode_utf8(v.1).len() <= u64::MAX
        &&& (v.0 == 0 || (v.0 == 1 && url_serialization(v.1) == Some(v.1)))
    }

    fn sync_wiring<W: Wire>(&self, wire: &mut W) -> (r: Result<(), WireError>) {
        match self {
            ConnectInfo::TcpStream(s) => {
                let _ = wire.sync_wire_be(0, 1);
                s.sync_wiring(wire)
            },
            ConnectInfo::Url(u) => {
                let _ = wire.sync_wire_be(1, 1);
                u.as_str().sync_wiring(wire)
            },
        }
    }
}

/// A connect info is read as a tag byte and a string; a URL must parse, and is kept
/// by the serialization it parses to.
impl Unwiring for ConnectInfo {
    open spec fn spec_unwire(s: Seq<u8>) -> Result<((u8, Seq<char>), nat), WireError> {
        match take_be(s, 1) {
            Err(e) => Err(e),
            Ok((tag, k)) => if tag == 0 {
                match <String as Unwiring>::spec_unwire(s.skip(k as int)) {
                    Ok((t, n)) => Ok(((0u8, t), k + n)),
                    Err(e) => Err(e),
                }
            } else if tag == 1 {
                match <String as Unwiring>::spec_unwire(s.skip(k as int)) {
                    Ok((t, n)) => match url_serialization(t) {
                        Some(u) => Ok(((1u8, u), k + n)),
                        None => Err(WireError::InvalidData),
                    },
                    Err(e) => Err(e),
                }
            } else {
                Err(WireError::InvalidData)
            },
        }
    }

    open spec fn spec_skip(s: Seq<u8>) -> Result<nat, WireError> {
        match take_be(s, 1) {
            Err(e) => Err(e),
            Ok((tag, k)) => match <String as Unwiring>::spec_skip(s.skip(k as int)) {
                Ok(n) => Ok(k + n),
                Err(e) => Err(e),
            },
        }
    }

    fn sync_unwiring<W: Unwire>(wire: &mut W) -> (r: Result<ConnectInfo, WireError>) {
        let ghost s = wire.unread();
        proof {
            lemma_pow256_values();
            if s.len() >= 1 {
                lemma_be_decode_bound(s.take(1));
            }
        }
        let tag = match wire.sync_unwire_be(1) {
            Ok(x) => x,
            Err(e) => {
                return Err(e);
            },
        };
        let ghost s1 = wire.unread();
        proof {
            <String as Unwiring>::lemma_unwire_bounds(s1);
        }
        if tag == 0 {
            match String::sync_unwiring(wire) {
                Ok(t) => {
                    assert(wire.unread() =~= s.skip((1 + <String as Unwiring>::spec_unwire(s1)->Ok_0.1) as int));
                    Ok(ConnectInfo::TcpStream(t))
                },
                Err(e) => {
                    Err(e)
                },
            }
        } else if tag == 1 {
            match String::sync_unwiring(wire) {
                Ok(t) => {
                    assert(wire.unread() =~= s.skip((1 + <String as Unwiring>::spec_unwire(s1)->Ok_0.1) as int));
                    match ConnectInfo::url(t.as_str()) {
                        Some(c) => Ok(c),
                        None => {
                            Err(WireError::InvalidData)
                        },
                    }
                },
                Err(e) => {
                    Err(e)
                },
            }
        } else {
            Err(WireError::InvalidData)
        }
    }

    fn skip_one<W: Unwire>(wire: &mut W) -> (r: Result<u64, WireError>) {
        proof {
            lemma_pow256_values();
        }
        let ghost cur = wire.unread();
        match wire.advance_position(1) {
            Ok(()) => {},
            Err(e) => {
                return Err(e);
            },
        }
        let ghost cur1 = wire.unread();
        proof {
            <String as Unwiring>::lemma_unwire_bounds(cur1);
        }
        let m = match String::skip_one(wire) {
            Ok(m) => m,
            Err(e) => {
                return Err(e);
            },
        };
        assert(wire.unread() =~= cur.skip((1 + m) as int));
        Ok(1 + m)
    }

    proof fn lemma_unwire_bounds(s: Seq<u8>) {
        <String as Unwiring>::lemma_unwire_bounds(s.skip(1));
    }

    proof fn lemma_skip_agrees(s: Seq<u8>) {
        <String as Unwiring>::lemma_skip_agrees(s.skip(1));
    }

    proof fn lemma_unwire_extends(s: Seq<u8>, t: Seq<u8>) {
        lemma_take_be_extends(s, t, 1);
        if s.len() >= 1 {
            <String as Unwiring>::lemma_unwire_extends(s.skip(1), t);
        }
    }

    proof fn lemma_roundtrip(v: (u8, Seq<char>), rest: Seq<u8>) {
        lemma_pow256_values();
        let tail = spec_wire_text(v.1) + rest;
        lemma_take_be_roundtrip(v.0 as nat, 1, tail);
        let all = Self::spec_wire(v) + rest;
        assert(all =~= be_encode(v.0 as nat, 1) + tail);
        assert(all.skip(1) =~= tail);
        <String as Unwiring>::lemma_roundtrip(v.1, rest);
    }
}


/// Who a wire is and how to reach it: its id, the key that grants access to it, and
/// its connect info.
#[derive(Debug, Clone)]
pub struct WireInfo {
    wire_id: u64,
    access_key: u128,
    connect_info: ConnectInfo,
}

impl DeepView for WireInfo {
    type V = (u64, u128, (u8, Seq<char>));

    closed spec fn deep_view(&self) -> (u64, u128, (u8, Seq<char>)) {
        (self.wire_id, self.access_key, self.connect_info.deep_view())
    }
}

impl WireInfo {
    /// Describe the wire `wire_id`, opened with `access_key`, reachable through
    /// `connect_info`.
    pub fn new(wire_id: u64, access_key: u128, connect_info: ConnectInfo) -> (r: Self)
        ensures
            r.deep_view() == (wire_id, access_key, connect_info.deep_view()),
    {
        WireInfo { wire_id, access_key, connect_info }
    }

    /// The wire's id.
    pub fn wire_id(&self) -> (r: u64)
        ensures
            r == self.deep_view().0,
    {
        self.wire_id
    }

    /// The key that grants access to the wire.
    pub fn access_key(&self) -> (r: u128)
        ensures
            r == self.deep_view().1,
    {
        self.access_key
    }

    /// How to reach the wire.
    pub fn connect_info(&self) -> (r: &ConnectInfo)
        ensures
            r.deep_view() == self.deep_view().2,
    {
        &self.connect_info
    }
}

/// A wire info travels as its id, its access key and its connect info, in that order.
impl Wiring for WireInfo {
    open spec fn spec_wire(v: (u64, u128, (u8, Seq<char>))) -> Seq<u8> {
        <(u64, u128, ConnectInfo) as Wiring>::spec_wire(v)
    }

    open spec fn spec_valid(v: (u64, u128, (u8, Seq<char>))) -> bool {
        <(u64, u128, ConnectInfo) as Wiring>::spec_valid(v)
    }

    fn sync_wiring<W: Wire>(&self, wire: &mut W) -> (r: Result<(), WireError>) {
        let _ = self.wire_id.sync_wiring(wire);
        let _ = self.access_key.sync_wiring(wire);
        self.connect_info.sync_wiring(wire)
    }
}

impl Unwiring for WireInfo {
    open spec fn spec_unwire(s: Seq<u8>) -> Result<((u64, u128, (u8, Seq<char>)), nat), WireError> {
        <(u64, u128, ConnectInfo) as Unwiring>::spec_unwire(s)
    }

    open spec fn spec_skip(s: Seq<u8>) -> Result<nat, WireError> {
        <(u64, u128, ConnectInfo) as Unwiring>::spec_skip(s)
    }

    fn sync_unwiring<W: Unwire>(wire: &mut W) -> (r: Result<WireInfo, WireError>) {
        match <(u64, u128, ConnectInfo) as Unwiring>::sync_unwiring(wire) {
            Ok((wire_id, access_key, connect_info)) => Ok(WireInfo { wire_id, access_key, connect_info }),
            Err(e) => Err(e),
        }
    }

    fn skip_one<W: Unwire>(wire: &mut W) -> (r: Result<u64, WireError>) {
        <(u64, u128, ConnectInfo) as Unwiring>::skip_one(wire)
    }

    fn bytes_length<W: Unwire>(wire: &mut W, count: u64) -> (r: Result<u64, WireError>) {
        proof {
            assert((|x: Seq<u8>| Self::spec_skip(x)) =~= (|x: Seq<u8>| <(u64, u128, ConnectInfo) as Unwiring>::spec_skip(x)));
        }
        <(u64, u128, ConnectInfo) as Unwiring>::bytes_length(wire, count)
    }

    proof fn lemma_unwire_bounds(s: Seq<u8>) {
        <(u64, u128, ConnectInfo) as Unwiring>::lemma_unwire_bounds(s);
    }

    proof fn lemma_skip_agrees(s: Seq<u8>) {
        <(u64, u128, ConnectInfo) as Unwiring>::lemma_skip_agrees(s);
    }

    proof fn lemma_unwire_extends(s: Seq<u8>, t: Seq<u8>) {
        <(u64, u128, ConnectInfo) as Unwiring>::lemma_unwire_extends(s, t);
    }

    proof fn lemma_roundtrip(v: (u64, u128, (u8, Seq<char>)), rest: Seq<u8>) {
        <(u64, u128, ConnectInfo) as Unwiring>::lemma_roundtrip(v, rest);
    }
}

/// The connect configuration of plain TCP streams.
#[derive(Debug, Clone)]
pub struct TcpStreamConfig;


/// `rand::random::<u64>()`: a random wire id; nothing is known of it.
#[verifier::external_body]
fn random_wire_id() -> u64 {
    rand::random()
}

/// `rand::random::<u128>()`: a random access key; nothing is known of it.
#[verifier::external_body]
fn random_access_key() -> u128 {
    rand::random()
}

/// How far `x` lies after `start`, counting upwards and wrapping past `u64::MAX`.
pub open spec fn offset_from(start: u64, x: u64) -> nat {
    if x >= start {
        (x - start) as nat
    } else {
        (x + 0x1_0000_0000_0000_0000 - start) as nat
    }
}

/// What the listener is asked to do.
pub enum ListenerEvent {
    /// A wire this side opened to a remote listener.
    OutgoingWire,
    /// A wire a remote side opened to this listener, forwarded to the registered wire
    /// `forward_info.0` under the access key `forward_info.1` where given.
    Incomingwire { forward_info: Option<(u64, u128)> },
    /// The wire `0` went away.
    DropWire(u64),
    /// Stop listening.
    Shutdown,
}

/// What the listener decided.
#[derive(Debug)]
pub enum ListenerAction {
    /// The new wire got `wire_id` and `access_key` and is registered under them.
    Opened { wire_id: u64, access_key: u128 },
    /// The new wire got `wire_id` and `access_key`, is not registered, and goes to the
    /// wire `target`, or is refused with the error in `outcome`.
    Forwarded { wire_id: u64, access_key: u128, target: u64, outcome: Result<(), WireError> },
    /// A wire was removed from the table, where it was there.
    Dropped,
    /// The listener stops.
    Shutdown,
}

/// Whether a wire may be forwarded to `target` under `key`, given the table `wires`.
pub open spec fn spec_route(wires: Map<u64, u128>, target: u64, key: u128) -> Result<(), WireError> {
    if !wires.contains_key(target) {
        Err(WireError::NotFound)
    } else if wires[target] != key {
        Err(WireError::PermissionDenied)
    } else {
        Ok(())
    }
}

/// The listener's table of open wires: each registered wire id with its access key.
pub struct WireRegistry {
    wires: std::collections::HashMap<u64, u128>,
}

impl View for WireRegistry {
    type V = Map<u64, u128>;

    closed spec fn view(&self) -> Map<u64, u128> {
        self.wires@
    }
}

impl WireRegistry {
    /// An empty table.
    pub fn new() -> (r: Self)
        ensures
            r@ == Map::<u64, u128>::empty(),
    {
        WireRegistry { wires: std::collections::HashMap::new() }
    }

    /// Whether `wire_id` is registered.
    pub fn contains(&self, wire_id: u64) -> (r: bool)
        ensures
            r == self@.contains_key(wire_id),
    {
        broadcast use vstd::std_specs::hash::group_hash_axioms;

        self.wires.contains_key(&wire_id)
    }

    /// A wire id that is not registered: a random one, or, where that is taken, the
    /// next free one after it.
    pub fn fresh_id(&self) -> (r: u64)
        ensures
            !self@.contains_key(r),
    {
        broadcast use vstd::std_specs::hash::group_hash_axioms;

        let n = self.wires.len();
        let start = random_wire_id();
        let mut candidate = start;
        let ghost mut probed: Set<u64> = Set::empty();
        let mut k: usize = 0;
        proof {
            assert(self@.dom().finite());
        }
        while self.wires.contains_key(&candidate)
            invariant
                n == self@.len(),
                self@.dom().finite(),
                probed.finite(),
                probed.len() == k,
                probed.subset_of(self@.dom()),
                k <= n,
                offset_from(start, candidate) == k,
                forall|x: u64| #[trigger] probed.contains(x) <==> offset_from(start, x) < k,
            decreases n - k,
        {
            let ghost old_probed = probed;
            proof {
                assert(!probed.contains(candidate));
                probed = probed.insert(candidate);
                vstd::set_lib::lemma_len_subset(probed, self@.dom());
                assert forall|x: u64| #[trigger] probed.contains(x) <==> offset_from(start, x) < k + 1 by {
                    if offset_from(start, x) == k {
                        assert(x == candidate);
                    }
                }
            }
            candidate = if candidate == u64::MAX {
                0
            } else {
                candidate + 1
            };
            k = k + 1;
        }
        candidate
    }

    /// Give a new wire a fresh id and a random access key, and register it.
    pub fn open_wire(&mut self) -> (r: (u64, u128))
        ensures
            !old(self)@.contains_key(r.0),
            final(self)@ == old(self)@.insert(r.0, r.1),
    {
        broadcast use vstd::std_specs::hash::group_hash_axioms;

        let wire_id = self.fresh_id();
        let access_key = random_access_key();
        self.wires.insert(wire_id, access_key);
        (wire_id, access_key)
    }

    /// Remove `wire_id` from the table.
    pub fn drop_wire(&mut self, wire_id: u64)
        ensures
            final(self)@ == old(self)@.remove(wire_id),
    {
        broadcast use vstd::std_specs::hash::group_hash_axioms;

        self.wires.remove(&wire_id);
    }

    /// Whether a wire may be forwarded to `target` under `key`.
    pub fn route(&self, target: u64, key: u128) -> (r: Result<(), WireError>)
        ensures
            r == spec_route(self@, target, key),
    {
        broadcast use vstd::std_specs::hash::group_hash_axioms;

        match self.wires.get(&target) {
            None => Err(WireError::NotFound),
            Some(k) => if *k == key {
                Ok(())
            } else {
                Err(WireError::PermissionDenied)
            },
        }
    }

    /// Decide what the listener does with `event`.
    pub fn handle(&mut self, event: ListenerEvent) -> (r: ListenerAction)
        ensures
            match event {
                ListenerEvent::OutgoingWire | ListenerEvent::Incomingwire { forward_info: None } => {
                    &&& r matches ListenerAction::Opened { wire_id, access_key }
                    &&& !old(self)@.contains_key(wire_id)
                    &&& final(self)@ == old(self)@.insert(wire_id, access_key)
                },
                ListenerEvent::Incomingwire { forward_info: Some((target, key)) } => {
                    &&& r matches ListenerAction::Forwarded { wire_id, access_key: _, target: t, outcome }
                    &&& !old(self)@.contains_key(wire_id)
                    &&& t == target
                    &&& outcome == spec_route(old(self)@, target, key)
                    &&& final(self)@ == old(self)@
                },
                ListenerEvent::DropWire(wire_id) => {
                    &&& r is Dropped
                    &&& final(self)@ == old(self)@.remove(wire_id)
                },
                ListenerEvent::Shutdown => {
                    &&& r is Shutdown
                    &&& final(self)@ == old(self)@
                },
            },
    {
        match event {
            ListenerEvent::OutgoingWire => {
                let (wire_id, access_key) = self.open_wire();
                ListenerAction::Opened { wire_id, access_key }
            },
            ListenerEvent::Incomingwire { forward_info } => {
                match forward_info {
                    None => {
                        let (wire_id, access_key) = self.open_wire();
                        ListenerAction::Opened { wire_id, access_key }
                    },
                    Some((target, key)) => {
                        let wire_id = self.fresh_id();
                        let access_key = random_access_key();
                        let outcome = self.route(target, key);
                        ListenerAction::Forwarded { wire_id, access_key, target, outcome }
                    },
                }
            },
            ListenerEvent::DropWire(wire_id) => {
                self.drop_wire(wire_id);
                ListenerAction::Dropped
            },
            ListenerEvent::Shutdown => ListenerAction::Shutdown,
        }
    }
}

} // verus!
