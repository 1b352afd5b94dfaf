//! Strings, sequences, options, tuples and boxes on the wire.
use vstd::prelude::*;
use vstd::utf8::{decode_utf8, encode_utf8, encode_utf8_decode_utf8, encode_utf8_valid_utf8, valid_utf8};

use crate::endian::{be_decode, be_encode, lemma_be_decode_bound, lemma_pow256_values};
use crate::error::WireError;
use crate::unwire::{
    lemma_take_be_extends, lemma_take_be_roundtrip, settled, shift, skip_n, take_be, Unwire, Unwiring,
};
use crate::wire::{Wire, Wiring};

verus! {

/// The wire form of text: its UTF-8 byte length as a `u64`, then its UTF-8 bytes.
pub open spec fn spec_wire_text(v: Seq<char>) -> Seq<u8> {
    be_encode(encode_utf8(v).len(), 8) + encode_utf8(v)
}

impl Wiring for String {
    open spec fn spec_wire(v: Seq<char>) -> Seq<u8> {
        spec_wire_text(v)
    }

    open spec fn spec_valid(v: Seq<char>) -> bool {
        encode_utf8(v).len() <= u64::MAX
    }

    fn sync_wiring<W: Wire>(&self, wire: &mut W) -> (r: Result<(), WireError>) {
        let b = self.as_str().as_bytes();
        let len = b.len() as u64;
        let _ = wire.sync_wire_u64(&len);
        wire.sync_wire_all(b)
    }
}

impl<'a> Wiring for &'a str {
    open spec fn spec_wire(v: Seq<char>) -> Seq<u8> {
        spec_wire_text(v)
    }

    open spec fn spec_valid(v: Seq<char>) -> bool {
        encode_utf8(v).len() <= u64::MAX
    }

    fn sync_wiring<W: Wire>(&self, wire: &mut W) -> (r: Result<(), WireError>) {
        let text: &str = *self;
        let b = text.as_bytes();
        assert(b@ == encode_utf8(text@));
        assert(self.deep_view() == text@);
        let len = b.len() as u64;
        let ghost start = wire.written();
        let _ = wire.sync_wire_u64(&len);
        let r = wire.sync_wire_all(b);
        assert(wire.written() =~= start + spec_wire_text(text@));
        assert(<&'a str as Wiring>::spec_wire(self.deep_view()) == spec_wire_text(text@));
        assert(<&'a str as Wiring>::spec_valid(self.deep_view()));
        r
    }
}

/// Text is read as a `u64` byte length and that many bytes of UTF-8.
impl Unwiring for String {
    open spec fn spec_unwire(s: Seq<u8>) -> Result<(Seq<char>, nat), WireError> {
        match take_be(s, 8) {
            Err(e) => Err(e),
            Ok((len, k)) => if s.len() < k + len {
                Err(WireError::UnexpectedEof)
            } else {
                let b = s.subrange(k as int, (k + len) as int);
                if valid_utf8(b) {
                    Ok((decode_utf8(b), k + len))
                } else {
                    Err(WireError::InvalidData)
                }
            },
        }
    }

    open spec fn spec_skip(s: Seq<u8>) -> Result<nat, WireError> {
        match take_be(s, 8) {
            Err(e) => Err(e),
            Ok((len, k)) => if s.len() < k + len {
                Err(WireError::UnexpectedEof)
            } else {
                Ok(k + len)
            },
        }
    }

    fn sync_unwiring<W: Unwire>(wire: &mut W) -> (r: Result<String, WireError>) {
        wire.sync_unwire_string()
    }

    fn skip_one<W: Unwire>(wire: &mut W) -> (r: Result<u64, WireError>) {
        proof {
            lemma_pow256_values();
        }
        let ghost cur = wire.unread();
        proof {
            if cur.len() >= 8 {
                lemma_be_decode_bound(cur.take(8));
            }
        }
        let len = match wire.sync_unwire_be(8) {
            Ok(x) => x as u64,
            Err(e) => {
                return Err(e);
            },
        };
        match wire.advance_position(len) {
            Ok(()) => {},
            Err(e) => {
                return Err(e);
            },
        }
        assert(wire.unread() =~= cur.skip((8 + len) as int));
        Ok(8 + len)
    }

    proof fn lemma_unwire_bounds(s: Seq<u8>) {
    }

    proof fn lemma_skip_agrees(s: Seq<u8>) {
    }

    proof fn lemma_unwire_extends(s: Seq<u8>, t: Seq<u8>) {
        lemma_take_be_extends(s, t, 8);
        if s.len() >= 8 {
            let len = be_decode(s.take(8));
            if s.len() >= 8 + len {
                assert((s + t).subrange(8, (8 + len) as int) =~= s.subrange(8, (8 + len) as int));
            }
        }
    }

    proof fn lemma_roundtrip(v: Seq<char>, rest: Seq<u8>) {
        let b = encode_utf8(v);
        lemma_pow256_values();
        lemma_take_be_roundtrip(b.len(), 8, b + rest);
        let all = Self::spec_wire(v) + rest;
        assert(all =~= be_encode(b.len(), 8) + (b + rest));
        assert(all.subrange(8, 8 + b.len() as int) =~= b);
        encode_utf8_valid_utf8(v);
        encode_utf8_decode_utf8(v);
    }
}


/// The concatenated wire forms of the models in `v`, in order.
pub open spec fn wire_seq<T: Wiring>(v: Seq<T::V>) -> Seq<u8>
    decreases v.len(),
{
    if v.len() == 0 {
        Seq::empty()
    } else {
        wire_seq::<T>(v.drop_last()) + T::spec_wire(v.last())
    }
}

/// Unwire `count` values of type `T` one after the other from the front of `s`.
pub open spec fn unwire_seq<T: Unwiring>(s: Seq<u8>, count: nat) -> Result<(Seq<T::V>, nat), WireError>
    decreases count,
{
    if count == 0 {
        Ok((Seq::empty(), 0))
    } else {
        match T::spec_unwire(s) {
            Err(e) => Err(e),
            Ok((v, n)) => match unwire_seq::<T>(s.skip(n as int), (count - 1) as nat) {
                Ok((vs, m)) => Ok((seq![v] + vs, n + m)),
                Err(e) => Err(e),
            },
        }
    }
}

/// Prepend `prefix`, taking `k` bytes, to the result of unwiring the rest.
pub open spec fn prepend<V>(prefix: Seq<V>, k: nat, r: Result<(Seq<V>, nat), WireError>) -> Result<(Seq<V>, nat), WireError> {
    match r {
        Ok((vs, m)) => Ok((prefix + vs, k + m)),
        Err(e) => Err(e),
    }
}

/// Moving one unwired element from the rest into the prefix.
pub proof fn lemma_prepend_step<V>(prefix: Seq<V>, k: nat, v: V, n: nat, r: Result<(Seq<V>, nat), WireError>)
    ensures
        prepend(prefix, k, match r {
            Ok((vs, m)) => Ok((seq![v] + vs, n + m)),
            Err(e) => Err(e),
        }) == prepend(prefix.push(v), k + n, r),
{
    match r {
        Ok((vs, m)) => {
            assert(prefix + (seq![v] + vs) =~= prefix.push(v) + vs);
        },
        Err(e) => {},
    }
}

/// The wire form of a sequence splits after its first element.
pub proof fn lemma_wire_seq_front<T: Wiring>(v: Seq<T::V>)
    requires
        v.len() > 0,
    ensures
        wire_seq::<T>(v) =~= T::spec_wire(v[0]) + wire_seq::<T>(v.drop_first()),
    decreases v.len(),
{
    let dl = v.drop_last();
    let df = v.drop_first();
    if v.len() > 1 {
        lemma_wire_seq_front::<T>(dl);
        assert(dl.drop_first() =~= df.drop_last());
        assert(dl[0] == v[0]);
        assert(df.last() == v.last());
        assert(wire_seq::<T>(v) == wire_seq::<T>(dl) + T::spec_wire(v.last()));
        assert(wire_seq::<T>(df) == wire_seq::<T>(df.drop_last()) + T::spec_wire(df.last()));
        assert(wire_seq::<T>(dl) == T::spec_wire(dl[0]) + wire_seq::<T>(dl.drop_first()));
    } else {
        assert(df.len() == 0);
        assert(dl.len() == 0);
        assert(v.last() == v[0]);
        assert(wire_seq::<T>(v) == wire_seq::<T>(dl) + T::spec_wire(v.last()));
        assert(wire_seq::<T>(dl) == Seq::<u8>::empty());
        assert(wire_seq::<T>(df) == Seq::<u8>::empty());
    }
}

/// Unwiring the wire form of a sequence of models gives the sequence back.
pub proof fn lemma_unwire_seq_roundtrip<T: Unwiring>(v: Seq<T::V>, rest: Seq<u8>)
    requires
        forall|i: int| 0 <= i < v.len() ==> T::spec_valid(#[trigger] v[i]),
    ensures
        unwire_seq::<T>(wire_seq::<T>(v) + rest, v.len()) == Ok::<(Seq<T::V>, nat), WireError>(
            (v, wire_seq::<T>(v).len()),
        ),
    decreases v.len(),
{
    if v.len() > 0 {
        let t = v.drop_first();
        lemma_wire_seq_front::<T>(v);
        assert(T::spec_valid(v[0]));
        assert forall|i: int| 0 <= i < t.len() implies T::spec_valid(#[trigger] t[i]) by {
            assert(0 <= i + 1 < v.len());
            assert(t[i] == v[i + 1]);
        }
        lemma_unwire_seq_roundtrip::<T>(t, rest);
        let tail = wire_seq::<T>(t) + rest;
        T::lemma_roundtrip(v[0], tail);
        let all = wire_seq::<T>(v) + rest;
        let n = T::spec_wire(v[0]).len();
        assert(all =~= T::spec_wire(v[0]) + tail);
        assert(all.skip(n as int) =~= tail);
        assert(T::spec_unwire(all) == Ok::<(T::V, nat), WireError>((v[0], n)));
        assert(unwire_seq::<T>(tail, t.len()) == Ok::<(Seq<T::V>, nat), WireError>((t, wire_seq::<T>(t).len())));
        assert(seq![v[0]] + t =~= v);
        assert(wire_seq::<T>(v).len() == n + wire_seq::<T>(t).len());
        assert(unwire_seq::<T>(all, v.len()) == match unwire_seq::<T>(all.skip(n as int), (v.len() - 1) as nat) {
            Ok((vs, m)) => Ok::<(Seq<T::V>, nat), WireError>((seq![v[0]] + vs, n + m)),
            Err(e) => Err(e),
        });
    } else {
        assert(v =~= Seq::<T::V>::empty());
    }
}

/// What `unwire_seq` takes never runs past the input.
pub proof fn lemma_unwire_seq_bounds<T: Unwiring>(s: Seq<u8>, count: nat)
    ensures
        unwire_seq::<T>(s, count) is Ok ==> unwire_seq::<T>(s, count)->Ok_0.1 <= s.len()
            && unwire_seq::<T>(s, count)->Ok_0.0.len() == count,
    decreases count,
{
    if count > 0 {
        T::lemma_unwire_bounds(s);
        if T::spec_unwire(s) is Ok {
            let n = T::spec_unwire(s)->Ok_0.1;
            lemma_unwire_seq_bounds::<T>(s.skip(n as int), (count - 1) as nat);
        }
    }
}

/// Where `count` values unwire, the length walk over them takes the same bytes.
pub proof fn lemma_unwire_seq_skip<T: Unwiring>(s: Seq<u8>, count: nat)
    ensures
        unwire_seq::<T>(s, count) is Ok ==> skip_n(|x: Seq<u8>| T::spec_skip(x), s, count)
            == Ok::<nat, WireError>(unwire_seq::<T>(s, count)->Ok_0.1),
    decreases count,
{
    if count > 0 {
        T::lemma_skip_agrees(s);
        if T::spec_unwire(s) is Ok {
            let n = T::spec_unwire(s)->Ok_0.1;
            lemma_unwire_seq_skip::<T>(s.skip(n as int), (count - 1) as nat);
        }
    }
}

/// The length walk never runs past the input.
pub proof fn lemma_skip_n_bounds<T: Unwiring>(s: Seq<u8>, count: nat)
    ensures
        skip_n(|x: Seq<u8>| T::spec_skip(x), s, count) is Ok ==> skip_n(
            |x: Seq<u8>| T::spec_skip(x),
            s,
            count,
        )->Ok_0 <= s.len(),
    decreases count,
{
    if count > 0 {
        T::lemma_unwire_bounds(s);
        if T::spec_skip(s) is Ok {
            let n = T::spec_skip(s)->Ok_0;
            lemma_skip_n_bounds::<T>(s.skip(n as int), (count - 1) as nat);
        }
    }
}

/// Bytes after `count` values do not change how they unwire.
pub proof fn lemma_unwire_seq_extends<T: Unwiring>(s: Seq<u8>, t: Seq<u8>, count: nat)
    ensures
        settled(unwire_seq::<T>(s, count), unwire_seq::<T>(s + t, count)),
    decreases count,
{
    if count > 0 {
        T::lemma_unwire_extends(s, t);
        T::lemma_unwire_bounds(s);
        if T::spec_unwire(s) is Ok {
            let n = T::spec_unwire(s)->Ok_0.1;
            assert((s + t).skip(n as int) =~= s.skip(n as int) + t);
            lemma_unwire_seq_extends::<T>(s.skip(n as int), t, (count - 1) as nat);
        }
    }
}

/// Bytes after `count` values do not change the length walk over them.
pub proof fn lemma_skip_n_extends<T: Unwiring>(s: Seq<u8>, t: Seq<u8>, count: nat)
    ensures
        settled(
            skip_n(|x: Seq<u8>| T::spec_skip(x), s, count),
            skip_n(|x: Seq<u8>| T::spec_skip(x), s + t, count),
        ),
    decreases count,
{
    if count > 0 {
        T::lemma_unwire_extends(s, t);
        T::lemma_unwire_bounds(s);
        if T::spec_skip(s) is Ok {
            let n = T::spec_skip(s)->Ok_0;
            assert((s + t).skip(n as int) =~= s.skip(n as int) + t);
            lemma_skip_n_extends::<T>(s.skip(n as int), t, (count - 1) as nat);
        }
    }
}

/// A sequence travels as its length as a `u64`, then each element in order.
impl<T: Wiring> Wiring for Vec<T> {
    open spec fn spec_wire(v: Seq<T::V>) -> Seq<u8> {
        be_encode(v.len(), 8) + wire_seq::<T>(v)
    }

    open spec fn spec_valid(v: Seq<T::V>) -> bool {
        &&& v.len() <= u64::MAX
        &&& forall|i: int| 0 <= i < v.len() ==> T::spec_valid(#[trigger] v[i])
    }

    fn sync_wiring<W: Wire>(&self, wire: &mut W) -> (r: Result<(), WireError>) {
        let len = self.len();
        let ghost start = wire.written();
        let ghost dv = self.deep_view();
        let _ = wire.sync_wire_u64(&(len as u64));
        let mut i: usize = 0;
        while i < len
            invariant
                i <= len,
                len == self@.len(),
                dv == self.deep_view(),
                wire.written() =~= start + be_encode(len as nat, 8) + wire_seq::<T>(dv.take(i as int)),
                forall|j: int| 0 <= j < i ==> T::spec_valid(#[trigger] dv[j]),
            decreases len - i,
        {
            let _ = self[i].sync_wiring(wire);
            assert(dv.take(i + 1).drop_last() =~= dv.take(i as int));
            i = i + 1;
        }
        assert(dv.take(len as int) =~= dv);
        Ok(())
    }
}

impl<'a, T: Wiring> Wiring for &'a [T] {
    open spec fn spec_wire(v: Seq<T::V>) -> Seq<u8> {
        be_encode(v.len(), 8) + wire_seq::<T>(v)
    }

    open spec fn spec_valid(v: Seq<T::V>) -> bool {
        &&& v.len() <= u64::MAX
        &&& forall|i: int| 0 <= i < v.len() ==> T::spec_valid(#[trigger] v[i])
    }

    fn sync_wiring<W: Wire>(&self, wire: &mut W) -> (r: Result<(), WireError>) {
        let len = self.len();
        let ghost start = wire.written();
        let ghost dv = self.deep_view();
        let _ = wire.sync_wire_u64(&(len as u64));
        let mut i: usize = 0;
        while i < len
            invariant
                i <= len,
                len == self@.len(),
                dv == self.deep_view(),
                wire.written() =~= start + be_encode(len as nat, 8) + wire_seq::<T>(dv.take(i as int)),
                forall|j: int| 0 <= j < i ==> T::spec_valid(#[trigger] dv[j]),
            decreases len - i,
        {
            let _ = self[i].sync_wiring(wire);
            assert(dv.take(i + 1).drop_last() =~= dv.take(i as int));
            i = i + 1;
        }
        assert(dv.take(len as int) =~= dv);
        Ok(())
    }
}

/// An array travels as its elements in order, with no length in front.
impl<T: Wiring, const N: usize> Wiring for [T; N] {
    open spec fn spec_wire(v: Seq<T::V>) -> Seq<u8> {
        wire_seq::<T>(v)
    }

    open spec fn spec_valid(v: Seq<T::V>) -> bool {
        &&& v.len() == N
        &&& forall|i: int| 0 <= i < v.len() ==> T::spec_valid(#[trigger] v[i])
    }

    fn sync_wiring<W: Wire>(&self, wire: &mut W) -> (r: Result<(), WireError>) {
        let ghost start = wire.written();
        let ghost dv = self.deep_view();
        let mut i: usize = 0;
        while i < N
            invariant
                i <= N,
                N == self@.len(),
                dv == self.deep_view(),
                wire.written() =~= start + wire_seq::<T>(dv.take(i as int)),
                forall|j: int| 0 <= j < i ==> T::spec_valid(#[trigger] dv[j]),
            decreases N - i,
        {
            let _ = self[i].sync_wiring(wire);
            assert(dv.take(i + 1).drop_last() =~= dv.take(i as int));
            i = i + 1;
        }
        assert(dv.take(N as int) =~= dv);
        Ok(())
    }
}

/// A borrowed array travels as the array does.
impl<'a, T: Wiring, const N: usize> Wiring for &'a [T; N] {
    open spec fn spec_wire(v: Seq<T::V>) -> Seq<u8> {
        wire_seq::<T>(v)
    }

    open spec fn spec_valid(v: Seq<T::V>) -> bool {
        &&& v.len() == N
        &&& forall|i: int| 0 <= i < v.len() ==> T::spec_valid(#[trigger] v[i])
    }

    fn sync_wiring<W: Wire>(&self, wire: &mut W) -> (r: Result<(), WireError>) {
        let items: &[T; N] = *self;
        items.sync_wiring(wire)
    }
}

/// A sequence is read as a `u64` count, then that many elements.
impl<T: Unwiring> Unwiring for Vec<T> {
    open spec fn spec_unwire(s: Seq<u8>) -> Result<(Seq<T::V>, nat), WireError> {
        match take_be(s, 8) {
            Err(e) => Err(e),
            Ok((c, k)) => prepend(Seq::empty(), k, unwire_seq::<T>(s.skip(k as int), c)),
        }
    }

    open spec fn spec_skip(s: Seq<u8>) -> Result<nat, WireError> {
        match take_be(s, 8) {
            Err(e) => Err(e),
            Ok((c, k)) => shift(k, skip_n(|x: Seq<u8>| T::spec_skip(x), s.skip(k as int), c)),
        }
    }

    fn sync_unwiring<W: Unwire>(wire: &mut W) -> (r: Result<Vec<T>, WireError>) {
        let ghost s = wire.unread();
        proof {
            lemma_pow256_values();
            if s.len() >= 8 {
                lemma_be_decode_bound(s.take(8));
            }
        }
        let count = match wire.sync_unwire_be(8) {
            Ok(x) => x as u64,
            Err(e) => {
                return Err(e);
            },
        };
        let ghost s1 = wire.unread();
        let ghost mut k: nat = 0;
        let mut out: Vec<T> = Vec::new();
        let mut i: u64 = 0;
        while i < count
            invariant
                i <= count,
                s == old(wire).unread(),
                k <= s1.len(),
                s1 == s.skip(8),
                count as nat == be_decode(s.take(8)),
                s.len() >= 8,
                out@.len() == i,
                wire.unread() == s1.skip(k as int),
                unwire_seq::<T>(s1, count as nat) == prepend(out.deep_view(), k, unwire_seq::<T>(wire.unread(), (count - i) as nat)),
            decreases count - i,
        {
            let ghost cur = wire.unread();
            proof {
                T::lemma_unwire_bounds(cur);
            }
            let item = match T::sync_unwiring(wire) {
                Ok(x) => x,
                Err(e) => {
                    proof {
                        assert(cur =~= s.skip((8 + k) as int));
                    }
                    return Err(e);
                },
            };
            let ghost n = T::spec_unwire(cur)->Ok_0.1;
            let ghost old_dv = out.deep_view();
            proof {
                assert(T::spec_unwire(cur) == Ok::<(T::V, nat), WireError>((item.deep_view(), n)));
                assert(unwire_seq::<T>(cur, (count - i) as nat) == match unwire_seq::<T>(cur.skip(n as int), (count - i - 1) as nat) {
                    Ok((vs, m)) => Ok::<(Seq<T::V>, nat), WireError>((seq![item.deep_view()] + vs, n + m)),
                    Err(e) => Err(e),
                });
                lemma_prepend_step(old_dv, k, item.deep_view(), n, unwire_seq::<T>(cur.skip(n as int), (count - i - 1) as nat));
            }
            out.push(item);
            proof {
                assert(out.deep_view() =~= old_dv.push(item.deep_view()));
                assert(wire.unread() =~= s1.skip((k + n) as int));
                k = k + n;
            }
            i = i + 1;
        }
        assert(out.deep_view() =~= Seq::<T::V>::empty() + out.deep_view());
        Ok(out)
    }

    fn skip_one<W: Unwire>(wire: &mut W) -> (r: Result<u64, WireError>) {
        proof {
            lemma_pow256_values();
        }
        let ghost cur = wire.unread();
        proof {
            if cur.len() >= 8 {
                lemma_be_decode_bound(cur.take(8));
            }
        }
        let c = match wire.sync_unwire_be(8) {
            Ok(x) => x as u64,
            Err(e) => {
                return Err(e);
            },
        };
        let ghost cur8 = wire.unread();
        proof {
            lemma_skip_n_bounds::<T>(cur8, c as nat);
        }
        let m = match T::bytes_length(wire, c) {
            Ok(m) => m,
            Err(e) => {
                return Err(e);
            },
        };
        assert(wire.unread() =~= cur.skip((8 + m) as int));
        Ok(8 + m)
    }

    proof fn lemma_unwire_bounds(s: Seq<u8>) {
        lemma_pow256_values();
        if s.len() >= 8 {
            lemma_unwire_seq_bounds::<T>(s.skip(8), be_decode(s.take(8)));
            lemma_skip_n_bounds::<T>(s.skip(8), be_decode(s.take(8)));
        }
    }

    proof fn lemma_skip_agrees(s: Seq<u8>) {
        if s.len() >= 8 {
            lemma_unwire_seq_skip::<T>(s.skip(8), be_decode(s.take(8)));
        }
    }

    proof fn lemma_unwire_extends(s: Seq<u8>, t: Seq<u8>) {
        lemma_take_be_extends(s, t, 8);
        if s.len() >= 8 {
            let c = be_decode(s.take(8));
            lemma_unwire_seq_extends::<T>(s.skip(8), t, c);
            lemma_skip_n_extends::<T>(s.skip(8), t, c);
        }
    }

    proof fn lemma_roundtrip(v: Seq<T::V>, rest: Seq<u8>) {
        lemma_pow256_values();
        let body = wire_seq::<T>(v) + rest;
        lemma_take_be_roundtrip(v.len(), 8, body);
        let all = Self::spec_wire(v) + rest;
        assert(all =~= be_encode(v.len(), 8) + body);
        assert(all.skip(8) =~= body);
        lemma_unwire_seq_roundtrip::<T>(v, rest);
        assert(Seq::<T::V>::empty() + v =~= v);
    }
}


/// `<[T; N]>::try_from(Vec<T>)`: the vector's elements as an array, where there are
/// exactly `N` of them.
#[verifier::external_body]
fn vec_into_array<T, const N: usize>(v: Vec<T>) -> (r: Option<[T; N]>)
    ensures
        r is Some <==> v@.len() == N,
        r matches Some(a) ==> a@ == v@,
{
    v.try_into().ok()
}

/// An array is read as its `N` elements, with no count in front.
impl<T: Unwiring, const N: usize> Unwiring for [T; N] {
    open spec fn spec_unwire(s: Seq<u8>) -> Result<(Seq<T::V>, nat), WireError> {
        unwire_seq::<T>(s, N as nat)
    }

    open spec fn spec_skip(s: Seq<u8>) -> Result<nat, WireError> {
        skip_n(|x: Seq<u8>| T::spec_skip(x), s, N as nat)
    }

    fn sync_unwiring<W: Unwire>(wire: &mut W) -> (r: Result<[T; N], WireError>) {
        let ghost s = wire.unread();
        let ghost mut k: nat = 0;
        let mut out: Vec<T> = Vec::new();
        let mut i: usize = 0;
        while i < N
            invariant
                i <= N,
                s == old(wire).unread(),
                k <= s.len(),
                out@.len() == i,
                wire.unread() == s.skip(k as int),
                unwire_seq::<T>(s, N as nat) == prepend(out.deep_view(), k, unwire_seq::<T>(wire.unread(), (N - i) as nat)),
            decreases N - i,
        {
            let ghost cur = wire.unread();
            proof {
                T::lemma_unwire_bounds(cur);
            }
            let item = match T::sync_unwiring(wire) {
                Ok(x) => x,
                Err(e) => {
                    return Err(e);
                },
            };
            let ghost n = T::spec_unwire(cur)->Ok_0.1;
            let ghost old_dv = out.deep_view();
            proof {
                assert(T::spec_unwire(cur) == Ok::<(T::V, nat), WireError>((item.deep_view(), n)));
                assert(unwire_seq::<T>(cur, (N - i) as nat) == match unwire_seq::<T>(cur.skip(n as int), (N - i - 1) as nat) {
                    Ok((vs, m)) => Ok::<(Seq<T::V>, nat), WireError>((seq![item.deep_view()] + vs, n + m)),
                    Err(e) => Err(e),
                });
                lemma_prepend_step(old_dv, k, item.deep_view(), n, unwire_seq::<T>(cur.skip(n as int), (N - i - 1) as nat));
            }
            out.push(item);
            proof {
                assert(out.deep_view() =~= old_dv.push(item.deep_view()));
                assert(wire.unread() =~= s.skip((k + n) as int));
                k = k + n;
            }
            i = i + 1;
        }
        let ghost dv = out.deep_view();
        assert(dv =~= Seq::<T::V>::empty() + dv);
        match vec_into_array::<T, N>(out) {
            Some(a) => {
                assert(a.deep_view() =~= dv);
                Ok(a)
            },
            None => Err(WireError::OutOfBounds),
        }
    }

    fn skip_one<W: Unwire>(wire: &mut W) -> (r: Result<u64, WireError>) {
        let ghost g = |x: Seq<u8>| T::spec_skip(x);
        let ghost cur = wire.unread();
        proof {
            assert(Self::spec_skip(cur) == skip_n(g, cur, N as nat));
            lemma_skip_n_bounds::<T>(cur, N as nat);
        }
        let m = match T::bytes_length(wire, N as u64) {
            Ok(m) => m,
            Err(e) => {
                return Err(e);
            },
        };
        assert(wire.unread() =~= cur.skip((m) as int));
        Ok(m)
    }

    proof fn lemma_unwire_bounds(s: Seq<u8>) {
        lemma_unwire_seq_bounds::<T>(s, N as nat);
        lemma_skip_n_bounds::<T>(s, N as nat);
    }

    proof fn lemma_skip_agrees(s: Seq<u8>) {
        lemma_unwire_seq_skip::<T>(s, N as nat);
    }

    proof fn lemma_unwire_extends(s: Seq<u8>, t: Seq<u8>) {
        lemma_unwire_seq_extends::<T>(s, t, N as nat);
        lemma_skip_n_extends::<T>(s, t, N as nat);
    }

    proof fn lemma_roundtrip(v: Seq<T::V>, rest: Seq<u8>) {
        lemma_unwire_seq_roundtrip::<T>(v, rest);
    }
}

/// An option travels as a tag byte, `0` for `None` and `1` for `Some`, then the value.
impl<T: Wiring> Wiring for Option<T> {
    open spec fn spec_wire(v: Option<T::V>) -> Seq<u8> {
        match v {
            None => be_encode(0, 1),
            Some(x) => be_encode(1, 1) + T::spec_wire(x),
        }
    }

    open spec fn spec_valid(v: Option<T::V>) -> bool {
        match v {
            None => true,
            Some(x) => T::spec_valid(x),
        }
    }

    fn sync_wiring<W: Wire>(&self, wire: &mut W) -> (r: Result<(), WireError>) {
        match self {
            None => wire.sync_wire_be(0, 1),
            Some(x) => {
                let _ = wire.sync_wire_be(1, 1);
                x.sync_wiring(wire)
            },
        }
    }
}

/// An option is read as a tag byte, then the value where the tag is `1`; any other
/// tag but `0` is invalid.
impl<T: Unwiring> Unwiring for Option<T> {
    open spec fn spec_unwire(s: Seq<u8>) -> Result<(Option<T::V>, nat), WireError> {
        match take_be(s, 1) {
            Err(e) => Err(e),
            Ok((tag, k)) => if tag == 0 {
                Ok((None, k))
            } else if tag == 1 {
                match T::spec_unwire(s.skip(k as int)) {
                    Ok((x, n)) => Ok((Some(x), k + n)),
                    Err(e) => Err(e),
                }
            } else {
                Err(WireError::InvalidData)
            },
        }
    }

    open spec fn spec_skip(s: Seq<u8>) -> Result<nat, WireError> {
        match take_be(s, 1) {
            Err(e) => Err(e),
            Ok((tag, k)) => if tag == 1 {
                shift(k, T::spec_skip(s.skip(k as int)))
            } else {
                Ok(k)
            },
        }
    }

    fn sync_unwiring<W: Unwire>(wire: &mut W) -> (r: Result<Option<T>, WireError>) {
        let ghost s = wire.unread();
        proof {
            lemma_pow256_values();
            if s.len() >= 1 {
                lemma_be_decode_bound(s.take(1));
            }
        }
        let tag = match wire.sync_unwire_be(1) {
            Ok(x) => x,
            Err(e) => {
                return Err(e);
            },
        };
        if tag == 0 {
            Ok(None)
        } else if tag == 1 {
            let ghost s1 = wire.unread();
            proof {
                T::lemma_unwire_bounds(s1);
            }
            match T::sync_unwiring(wire) {
                Ok(x) => {
                    assert(wire.unread() =~= s.skip((1 + T::spec_unwire(s1)->Ok_0.1) as int));
                    Ok(Some(x))
                },
                Err(e) => {
                    Err(e)
                },
            }
        } else {
            Err(WireError::InvalidData)
        }
    }

    fn skip_one<W: Unwire>(wire: &mut W) -> (r: Result<u64, WireError>) {
        proof {
            lemma_pow256_values();
        }
        let ghost cur = wire.unread();
        proof {
            if cur.len() >= 1 {
                lemma_be_decode_bound(cur.take(1));
            }
        }
        let tag = match wire.sync_unwire_be(1) {
            Ok(x) => x,
            Err(e) => {
                return Err(e);
            },
        };
        let mut m: u64 = 0;
        if tag == 1 {
            m = match T::skip_one(wire) {
                Ok(m) => m,
                Err(e) => {
                    return Err(e);
                },
            };
        }
        assert(wire.unread() =~= cur.skip((1 + m) as int));
        Ok(1 + m)
    }

    proof fn lemma_unwire_bounds(s: Seq<u8>) {
        T::lemma_unwire_bounds(s.skip(1));
    }

    proof fn lemma_skip_agrees(s: Seq<u8>) {
        T::lemma_skip_agrees(s.skip(1));
    }

    proof fn lemma_unwire_extends(s: Seq<u8>, t: Seq<u8>) {
        lemma_take_be_extends(s, t, 1);
        if s.len() >= 1 {
            T::lemma_unwire_extends(s.skip(1), t);
        }
    }

    proof fn lemma_roundtrip(v: Option<T::V>, rest: Seq<u8>) {
        lemma_pow256_values();
        match v {
            None => {
                lemma_take_be_roundtrip(0, 1, rest);
            },
            Some(x) => {
                let tail = T::spec_wire(x) + rest;
                lemma_take_be_roundtrip(1, 1, tail);
                let all = Self::spec_wire(v) + rest;
                assert(all =~= be_encode(1, 1) + tail);
                assert(all.skip(1) =~= tail);
                T::lemma_roundtrip(x, rest);
            },
        }
    }
}

/// A pair travels as its first element, then its second.
impl<A: Wiring, B: Wiring> Wiring for (A, B) {
    open spec fn spec_wire(v: (A::V, B::V)) -> Seq<u8> {
        A::spec_wire(v.0) + B::spec_wire(v.1)
    }

    open spec fn spec_valid(v: (A::V, B::V)) -> bool {
        A::spec_valid(v.0) && B::spec_valid(v.1)
    }

    fn sync_wiring<W: Wire>(&self, wire: &mut W) -> (r: Result<(), WireError>) {
        let _ = self.0.sync_wiring(wire);
        self.1.sync_wiring(wire)
    }
}

impl<A: Unwiring, B: Unwiring> Unwiring for (A, B) {
    open spec fn spec_unwire(s: Seq<u8>) -> Result<((A::V, B::V), nat), WireError> {
        match A::spec_unwire(s) {
            Err(e) => Err(e),
            Ok((a, n)) => match B::spec_unwire(s.skip(n as int)) {
                Err(e) => Err(e),
                Ok((b, m)) => Ok(((a, b), n + m)),
            },
        }
    }

    open spec fn spec_skip(s: Seq<u8>) -> Result<nat, WireError> {
        match A::spec_skip(s) {
            Err(e) => Err(e),
            Ok(n) => shift(n, B::spec_skip(s.skip(n as int))),
        }
    }

    fn sync_unwiring<W: Unwire>(wire: &mut W) -> (r: Result<(A, B), WireError>) {
        let ghost s = wire.unread();
        proof {
            A::lemma_unwire_bounds(s);
        }
        let a = match A::sync_unwiring(wire) {
            Ok(a) => a,
            Err(e) => {
                return Err(e);
            },
        };
        let ghost s1 = wire.unread();
        proof {
            B::lemma_unwire_bounds(s1);
        }
        let b = match B::sync_unwiring(wire) {
            Ok(b) => b,
            Err(e) => {
                return Err(e);
            },
        };
        assert(wire.unread() =~= s.skip((A::spec_unwire(s)->Ok_0.1 + B::spec_unwire(s1)->Ok_0.1) as int));
        Ok((a, b))
    }

    fn skip_one<W: Unwire>(wire: &mut W) -> (r: Result<u64, WireError>) {
        let ghost cur = wire.unread();
        let n = match A::skip_one(wire) {
            Ok(n) => n,
            Err(e) => {
                return Err(e);
            },
        };
        let m = match B::skip_one(wire) {
            Ok(m) => m,
            Err(e) => {
                return Err(e);
            },
        };
        assert(wire.unread() =~= cur.skip((n + m) as int));
        Ok(n + m)
    }

    proof fn lemma_unwire_bounds(s: Seq<u8>) {
        A::lemma_unwire_bounds(s);
        if A::spec_unwire(s) is Ok {
            B::lemma_unwire_bounds(s.skip(A::spec_unwire(s)->Ok_0.1 as int));
        }
        if A::spec_skip(s) is Ok {
            B::lemma_unwire_bounds(s.skip(A::spec_skip(s)->Ok_0 as int));
        }
    }

    proof fn lemma_skip_agrees(s: Seq<u8>) {
        A::lemma_skip_agrees(s);
        if A::spec_unwire(s) is Ok {
            B::lemma_skip_agrees(s.skip(A::spec_unwire(s)->Ok_0.1 as int));
        }
    }

    proof fn lemma_unwire_extends(s: Seq<u8>, t: Seq<u8>) {
        A::lemma_unwire_extends(s, t);
        A::lemma_unwire_bounds(s);
        if A::spec_unwire(s) is Ok {
            let n = A::spec_unwire(s)->Ok_0.1;
            assert((s + t).skip(n as int) =~= s.skip(n as int) + t);
            B::lemma_unwire_extends(s.skip(n as int), t);
        }
        if A::spec_skip(s) is Ok {
            let n = A::spec_skip(s)->Ok_0;
            assert((s + t).skip(n as int) =~= s.skip(n as int) + t);
            B::lemma_unwire_extends(s.skip(n as int), t);
        }
    }

    proof fn lemma_roundtrip(v: (A::V, B::V), rest: Seq<u8>) {
        let tail = B::spec_wire(v.1) + rest;
        A::lemma_roundtrip(v.0, tail);
        B::lemma_roundtrip(v.1, rest);
        let all = Self::spec_wire(v) + rest;
        assert(all =~= A::spec_wire(v.0) + tail);
        assert(all.skip(A::spec_wire(v.0).len() as int) =~= tail);
    }
}

/// A boxed value travels as the value itself.
impl<T: Wiring> Wiring for Box<T> {
    open spec fn spec_wire(v: T::V) -> Seq<u8> {
        T::spec_wire(v)
    }

    open spec fn spec_valid(v: T::V) -> bool {
        T::spec_valid(v)
    }

    fn sync_wiring<W: Wire>(&self, wire: &mut W) -> (r: Result<(), WireError>) {
        let inner: &T = &**self;
        inner.sync_wiring(wire)
    }
}

impl<T: Unwiring> Unwiring for Box<T> {
    open spec fn spec_unwire(s: Seq<u8>) -> Result<(T::V, nat), WireError> {
        T::spec_unwire(s)
    }

    open spec fn spec_skip(s: Seq<u8>) -> Result<nat, WireError> {
        T::spec_skip(s)
    }

    fn sync_unwiring<W: Unwire>(wire: &mut W) -> (r: Result<Box<T>, WireError>) {
        match T::sync_unwiring(wire) {
            Ok(x) => Ok(Box::new(x)),
            Err(e) => Err(e),
        }
    }

    fn skip_one<W: Unwire>(wire: &mut W) -> (r: Result<u64, WireError>) {
        T::skip_one(wire)
    }

    fn bytes_length<W: Unwire>(wire: &mut W, count: u64) -> (r: Result<u64, WireError>) {
        proof {
            assert((|x: Seq<u8>| Self::spec_skip(x)) =~= (|x: Seq<u8>| T::spec_skip(x)));
        }
        T::bytes_length(wire, count)
    }

    proof fn lemma_unwire_bounds(s: Seq<u8>) {
        T::lemma_unwire_bounds(s);
    }

    proof fn lemma_skip_agrees(s: Seq<u8>) {
        T::lemma_skip_agrees(s);
    }

    proof fn lemma_unwire_extends(s: Seq<u8>, t: Seq<u8>) {
        T::lemma_unwire_extends(s, t);
    }

    proof fn lemma_roundtrip(v: T::V, rest: Seq<u8>) {
        T::lemma_roundtrip(v, rest);
    }
}

/// `Vec::into_boxed_slice`: the same elements as a boxed slice.
#[verifier::external_body]
fn vec_into_boxed_slice<T>(v: Vec<T>) -> (r: Box<[T]>)
    ensures
        r@ == v@,
{
    v.into_boxed_slice()
}

/// A boxed slice travels as a sequence: its length as a `u64`, then each element.
impl<T: Wiring> Wiring for Box<[T]> {
    open spec fn spec_wire(v: Seq<T::V>) -> Seq<u8> {
        be_encode(v.len(), 8) + wire_seq::<T>(v)
    }

    open spec fn spec_valid(v: Seq<T::V>) -> bool {
        <Vec<T> as Wiring>::spec_valid(v)
    }

    fn sync_wiring<W: Wire>(&self, wire: &mut W) -> (r: Result<(), WireError>) {
        let items: &[T] = &**self;
        items.sync_wiring(wire)
    }
}

/// A boxed slice is read as a sequence.
impl<T: Unwiring> Unwiring for Box<[T]> {
    open spec fn spec_unwire(s: Seq<u8>) -> Result<(Seq<T::V>, nat), WireError> {
        <Vec<T> as Unwiring>::spec_unwire(s)
    }

    open spec fn spec_skip(s: Seq<u8>) -> Result<nat, WireError> {
        <Vec<T> as Unwiring>::spec_skip(s)
    }

    fn sync_unwiring<W: Unwire>(wire: &mut W) -> (r: Result<Box<[T]>, WireError>) {
        match <Vec<T> as Unwiring>::sync_unwiring(wire) {
            Ok(v) => {
                let ghost dv = v.deep_view();
                let b = vec_into_boxed_slice(v);
                assert(b.deep_view() =~= dv);
                Ok(b)
            },
            Err(e) => Err(e),
        }
    }

    fn skip_one<W: Unwire>(wire: &mut W) -> (r: Result<u64, WireError>) {
        <Vec<T> as Unwiring>::skip_one(wire)
    }

    fn bytes_length<W: Unwire>(wire: &mut W, count: u64) -> (r: Result<u64, WireError>) {
        proof {
            assert((|x: Seq<u8>| Self::spec_skip(x)) =~= (|x: Seq<u8>| <Vec<T> as Unwiring>::spec_skip(x)));
        }
        <Vec<T> as Unwiring>::bytes_length(wire, count)
    }

    proof fn lemma_unwire_bounds(s: Seq<u8>) {
        <Vec<T> as Unwiring>::lemma_unwire_bounds(s);
    }

    proof fn lemma_skip_agrees(s: Seq<u8>) {
        <Vec<T> as Unwiring>::lemma_skip_agrees(s);
    }

    proof fn lemma_unwire_extends(s: Seq<u8>, t: Seq<u8>) {
        <Vec<T> as Unwiring>::lemma_unwire_extends(s, t);
    }

    proof fn lemma_roundtrip(v: Seq<T::V>, rest: Seq<u8>) {
        <Vec<T> as Unwiring>::lemma_roundtrip(v, rest);
    }
}

/// A shared value travels as the value itself.
impl<T: Wiring> Wiring for std::sync::Arc<T> {
    open spec fn spec_wire(v: T::V) -> Seq<u8> {
        T::spec_wire(v)
    }

    open spec fn spec_valid(v: T::V) -> bool {
        T::spec_valid(v)
    }

    fn sync_wiring<W: Wire>(&self, wire: &mut W) -> (r: Result<(), WireError>) {
        let inner: &T = &**self;
        inner.sync_wiring(wire)
    }
}

impl<T: Unwiring> Unwiring for std::sync::Arc<T> {
    open spec fn spec_unwire(s: Seq<u8>) -> Result<(T::V, nat), WireError> {
        T::spec_unwire(s)
    }

    open spec fn spec_skip(s: Seq<u8>) -> Result<nat, WireError> {
        T::spec_skip(s)
    }

    fn sync_unwiring<W: Unwire>(wire: &mut W) -> (r: Result<std::sync::Arc<T>, WireError>) {
        match T::sync_unwiring(wire) {
            Ok(x) => Ok(std::sync::Arc::new(x)),
            Err(e) => Err(e),
        }
    }

    fn skip_one<W: Unwire>(wire: &mut W) -> (r: Result<u64, WireError>) {
        T::skip_one(wire)
    }

    fn bytes_length<W: Unwire>(wire: &mut W, count: u64) -> (r: Result<u64, WireError>) {
        proof {
            assert((|x: Seq<u8>| Self::spec_skip(x)) =~= (|x: Seq<u8>| T::spec_skip(x)));
        }
        T::bytes_length(wire, count)
    }

    proof fn lemma_unwire_bounds(s: Seq<u8>) {
        T::lemma_unwire_bounds(s);
    }

    proof fn lemma_skip_agrees(s: Seq<u8>) {
        T::lemma_skip_agrees(s);
    }

    proof fn lemma_unwire_extends(s: Seq<u8>, t: Seq<u8>) {
        T::lemma_unwire_extends(s, t);
    }

    proof fn lemma_roundtrip(v: T::V, rest: Seq<u8>) {
        T::lemma_roundtrip(v, rest);
    }
}


/// A triple travels as its three elements in order.
impl<A: Wiring, B: Wiring, C: Wiring> Wiring for (A, B, C) {
    open spec fn spec_wire(v: (A::V, B::V, C::V)) -> Seq<u8> {
        A::spec_wire(v.0) + B::spec_wire(v.1) + C::spec_wire(v.2)
    }

    open spec fn spec_valid(v: (A::V, B::V, C::V)) -> bool {
        A::spec_valid(v.0) && B::spec_valid(v.1) && C::spec_valid(v.2)
    }

    fn sync_wiring<W: Wire>(&self, wire: &mut W) -> (r: Result<(), WireError>) {
        let _ = self.0.sync_wiring(wire);
        let _ = self.1.sync_wiring(wire);
        self.2.sync_wiring(wire)
    }
}

impl<A: Unwiring, B: Unwiring, C: Unwiring> Unwiring for (A, B, C) {
    open spec fn spec_unwire(s: Seq<u8>) -> Result<((A::V, B::V, C::V), nat), WireError> {
        match A::spec_unwire(s) {
            Err(e) => Err(e),
            Ok((a, n)) => match B::spec_unwire(s.skip(n as int)) {
                Err(e) => Err(e),
                Ok((b, m)) => match C::spec_unwire(s.skip((n + m) as int)) {
                    Err(e) => Err(e),
                    Ok((c, l)) => Ok(((a, b, c), n + m + l)),
                },
            },
        }
    }

    open spec fn spec_skip(s: Seq<u8>) -> Result<nat, WireError> {
        match A::spec_skip(s) {
            Err(e) => Err(e),
            Ok(n) => match B::spec_skip(s.skip(n as int)) {
                Err(e) => Err(e),
                Ok(m) => shift(n + m, C::spec_skip(s.skip((n + m) as int))),
            },
        }
    }

    fn sync_unwiring<W: Unwire>(wire: &mut W) -> (r: Result<(A, B, C), WireError>) {
        let ghost s = wire.unread();
        proof {
            A::lemma_unwire_bounds(s);
        }
        let a = match A::sync_unwiring(wire) {
            Ok(a) => a,
            Err(e) => {
                return Err(e);
            },
        };
        let ghost n = A::spec_unwire(s)->Ok_0.1;
        let ghost s1 = wire.unread();
        proof {
            B::lemma_unwire_bounds(s1);
        }
        let b = match B::sync_unwiring(wire) {
            Ok(b) => b,
            Err(e) => {
                return Err(e);
            },
        };
        let ghost m = B::spec_unwire(s1)->Ok_0.1;
        let ghost s2 = wire.unread();
        assert(s2 =~= s.skip((n + m) as int));
        proof {
            C::lemma_unwire_bounds(s2);
        }
        let c = match C::sync_unwiring(wire) {
            Ok(c) => c,
            Err(e) => {
                return Err(e);
            },
        };
        assert(wire.unread() =~= s.skip((n + m + C::spec_unwire(s2)->Ok_0.1) as int));
        Ok((a, b, c))
    }

    fn skip_one<W: Unwire>(wire: &mut W) -> (r: Result<u64, WireError>) {
        let ghost cur = wire.unread();
        let n = match A::skip_one(wire) {
            Ok(n) => n,
            Err(e) => {
                return Err(e);
            },
        };
        let m = match B::skip_one(wire) {
            Ok(m) => m,
            Err(e) => {
                return Err(e);
            },
        };
        let ghost cur2 = wire.unread();
        assert(cur2 =~= cur.skip(n + m));
        let l = match C::skip_one(wire) {
            Ok(l) => l,
            Err(e) => {
                return Err(e);
            },
        };
        assert(wire.unread() =~= cur.skip((n + m + l) as int));
        Ok(n + m + l)
    }

    proof fn lemma_unwire_bounds(s: Seq<u8>) {
        A::lemma_unwire_bounds(s);
        if A::spec_unwire(s) is Ok {
            let n = A::spec_unwire(s)->Ok_0.1;
            B::lemma_unwire_bounds(s.skip(n as int));
            if B::spec_unwire(s.skip(n as int)) is Ok {
                let m = B::spec_unwire(s.skip(n as int))->Ok_0.1;
                C::lemma_unwire_bounds(s.skip((n + m) as int));
            }
        }
        if A::spec_skip(s) is Ok {
            let n = A::spec_skip(s)->Ok_0;
            B::lemma_unwire_bounds(s.skip(n as int));
            if B::spec_skip(s.skip(n as int)) is Ok {
                let m = B::spec_skip(s.skip(n as int))->Ok_0;
                C::lemma_unwire_bounds(s.skip((n + m) as int));
            }
        }
    }

    proof fn lemma_skip_agrees(s: Seq<u8>) {
        A::lemma_skip_agrees(s);
        if A::spec_unwire(s) is Ok {
            let n = A::spec_unwire(s)->Ok_0.1;
            B::lemma_skip_agrees(s.skip(n as int));
            if B::spec_unwire(s.skip(n as int)) is Ok {
                let m = B::spec_unwire(s.skip(n as int))->Ok_0.1;
                C::lemma_skip_agrees(s.skip((n + m) as int));
            }
        }
    }

    proof fn lemma_unwire_extends(s: Seq<u8>, t: Seq<u8>) {
        A::lemma_unwire_extends(s, t);
        A::lemma_unwire_bounds(s);
        if A::spec_unwire(s) is Ok {
            let n = A::spec_unwire(s)->Ok_0.1;
            let s1 = s.skip(n as int);
            assert((s + t).skip(n as int) =~= s1 + t);
            B::lemma_unwire_extends(s1, t);
            B::lemma_unwire_bounds(s1);
            if B::spec_unwire(s1) is Ok {
                let m = B::spec_unwire(s1)->Ok_0.1;
                assert(s.skip((n + m) as int) =~= s1.skip(m as int));
                assert((s + t).skip((n + m) as int) =~= s1.skip(m as int) + t);
                C::lemma_unwire_extends(s1.skip(m as int), t);
            }
        }
        if A::spec_skip(s) is Ok {
            let n = A::spec_skip(s)->Ok_0;
            let s1 = s.skip(n as int);
            assert((s + t).skip(n as int) =~= s1 + t);
            B::lemma_unwire_extends(s1, t);
            B::lemma_unwire_bounds(s1);
            if B::spec_skip(s1) is Ok {
                let m = B::spec_skip(s1)->Ok_0;
                assert(s.skip((n + m) as int) =~= s1.skip(m as int));
                assert((s + t).skip((n + m) as int) =~= s1.skip(m as int) + t);
                C::lemma_unwire_extends(s1.skip(m as int), t);
            }
        }
    }

    proof fn lemma_roundtrip(v: (A::V, B::V, C::V), rest: Seq<u8>) {
        let tail2 = C::spec_wire(v.2) + rest;
        let tail1 = B::spec_wire(v.1) + tail2;
        A::lemma_roundtrip(v.0, tail1);
        B::lemma_roundtrip(v.1, tail2);
        C::lemma_roundtrip(v.2, rest);
        let all = Self::spec_wire(v) + rest;
        let n = A::spec_wire(v.0).len();
        let m = B::spec_wire(v.1).len();
        assert(all =~= A::spec_wire(v.0) + tail1);
        assert(all.skip(n as int) =~= tail1);
        assert(all.skip((n + m) as int) =~= tail2);
    }
}

} // verus!
