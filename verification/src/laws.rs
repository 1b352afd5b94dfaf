//! Properties of the wire format and of the tables that span several operations.
use vstd::prelude::*;

use crate::attributes::{lemma_plan_error_stays, spec_group_start, spec_select_tag, AttributeError, TagRequest, tag_capacity, tag_width, TagType, lemma_plan_prefix_open, lemma_plan_prefix_starts, spec_plan_fixed, spec_plan_prefix, FieldRole, FixedAttr};
use crate::compound::{
    lemma_skip_n_bounds, lemma_skip_n_extends, lemma_unwire_seq_roundtrip, lemma_unwire_seq_skip, wire_seq,
};
use crate::listener::spec_route;
use crate::endian::{be_encode, lemma_pow256_values, pow256};
use crate::wire::Wiring;
use crate::unwire::{lemma_take_be_roundtrip, skip_n, take_be};
use crate::error::WireError;
use crate::unwire::Unwiring;

verus! {

/// A value wired into a buffer, with anything after it, is unwired from that buffer
/// as the same value: the length check that runs first finds exactly the value's
/// bytes, and the decoder gives the value back and takes exactly those bytes.
///
/// Every value that is wired has a valid model (`Wiring::sync_wiring` ensures it), so
/// this holds of every value written.
pub proof fn lemma_buffer_roundtrip<T: Unwiring>(v: T::V, rest: Seq<u8>)
    requires
        T::spec_valid(v),
    ensures
        T::spec_skip(T::spec_wire(v) + rest) == Ok::<nat, WireError>(T::spec_wire(v).len()),
        T::spec_unwire(T::spec_wire(v) + rest) == Ok::<(T::V, nat), WireError>((v, T::spec_wire(v).len())),
{
    T::lemma_roundtrip(v, rest);
    T::lemma_skip_agrees(T::spec_wire(v) + rest);
}

/// Two values wired one after the other are unwired in the same order: the first
/// comes back and leaves exactly the second's bytes, from which the second comes back.
pub proof fn lemma_consecutive_roundtrip<A: Unwiring, B: Unwiring>(a: A::V, b: B::V, rest: Seq<u8>)
    requires
        A::spec_valid(a),
        B::spec_valid(b),
    ensures
        A::spec_unwire(A::spec_wire(a) + B::spec_wire(b) + rest) == Ok::<(A::V, nat), WireError>(
            (a, A::spec_wire(a).len()),
        ),
        (A::spec_wire(a) + B::spec_wire(b) + rest).skip(A::spec_wire(a).len() as int) == B::spec_wire(b) + rest,
        B::spec_unwire(B::spec_wire(b) + rest) == Ok::<(B::V, nat), WireError>((b, B::spec_wire(b).len())),
{
    let all = A::spec_wire(a) + B::spec_wire(b) + rest;
    let tail = B::spec_wire(b) + rest;
    assert(all =~= A::spec_wire(a) + tail);
    A::lemma_roundtrip(a, tail);
    assert(all.skip(A::spec_wire(a).len() as int) =~= tail);
    B::lemma_roundtrip(b, rest);
}

/// Models that wire to the same bytes are the same model: unwiring tells every
/// valid value apart.
pub proof fn lemma_wire_injective<T: Unwiring>(a: T::V, b: T::V)
    requires
        T::spec_valid(a),
        T::spec_valid(b),
        T::spec_wire(a) == T::spec_wire(b),
    ensures
        a == b,
{
    T::lemma_roundtrip(a, Seq::empty());
    T::lemma_roundtrip(b, Seq::empty());
}

/// A wire registered under a key may be forwarded to under that key, refuses every
/// other key, and once dropped is not found under any.
pub proof fn lemma_registry_route(wires: Map<u64, u128>, wire_id: u64, key: u128, other: u128)
    requires
        other != key,
    ensures
        spec_route(wires.insert(wire_id, key), wire_id, key) == Ok::<(), WireError>(()),
        spec_route(wires.insert(wire_id, key), wire_id, other) == Err::<(), WireError>(
            WireError::PermissionDenied,
        ),
        spec_route(wires.insert(wire_id, key).remove(wire_id), wire_id, key) == Err::<(), WireError>(
            WireError::NotFound,
        ),
{
}

/// Registering or dropping one wire leaves the routing of every other wire as it was.
pub proof fn lemma_registry_independent(wires: Map<u64, u128>, wire_id: u64, key: u128, target: u64, k: u128)
    requires
        target != wire_id,
    ensures
        spec_route(wires.insert(wire_id, key), target, k) == spec_route(wires, target, k),
        spec_route(wires.remove(wire_id), target, k) == spec_route(wires, target, k),
{
}

/// A struct layout that is accepted has a role for every field, starts a group at
/// exactly the fields with a `fixed` attribute, and closes every group it opens.
pub proof fn lemma_plan_fixed_shape(attrs: Seq<FixedAttr>)
    requires
        spec_plan_fixed(attrs) is Ok,
    ensures
        spec_plan_fixed(attrs)->Ok_0.len() == attrs.len(),
        forall|f: int| 0 <= f < attrs.len() ==> (#[trigger] spec_plan_fixed(attrs)->Ok_0[f] == FieldRole::Start
            <==> attrs[f] != FixedAttr::Absent),
        spec_plan_prefix(attrs, attrs.len())->Ok_0.1 is None,
{
    lemma_plan_prefix_open(attrs, attrs.len());
    lemma_plan_prefix_starts(attrs, attrs.len());
}

/// The length walk over `c` values written one after the other takes exactly their
/// bytes, length prefixes included, and leaves what follows them; an input that
/// stops short of their last byte runs out.
///
/// Every value that is wired has a valid model (`Wiring::sync_wiring` ensures it), so
/// this holds of every run of values written.
pub proof fn lemma_length_walk_total<T: Unwiring>(vs: Seq<T::V>, rest: Seq<u8>, k: nat)
    requires
        forall|i: int| 0 <= i < vs.len() ==> T::spec_valid(#[trigger] vs[i]),
    ensures
        skip_n(|x: Seq<u8>| T::spec_skip(x), wire_seq::<T>(vs) + rest, vs.len())
            == Ok::<nat, WireError>(wire_seq::<T>(vs).len()),
        (wire_seq::<T>(vs) + rest).skip(wire_seq::<T>(vs).len() as int) == rest,
        k < wire_seq::<T>(vs).len() ==> skip_n(|x: Seq<u8>| T::spec_skip(x), wire_seq::<T>(vs).take(k as int), vs.len())
            == Err::<nat, WireError>(WireError::UnexpectedEof),
{
    let all = wire_seq::<T>(vs) + rest;
    let n = wire_seq::<T>(vs).len();
    lemma_unwire_seq_roundtrip::<T>(vs, rest);
    lemma_unwire_seq_skip::<T>(all, vs.len());
    assert(all.skip(n as int) =~= rest);
    if k < n {
        let p = wire_seq::<T>(vs).take(k as int);
        let t = wire_seq::<T>(vs).skip(k as int);
        assert(p + t =~= wire_seq::<T>(vs));
        lemma_unwire_seq_roundtrip::<T>(vs, Seq::empty());
        assert(wire_seq::<T>(vs) + Seq::<u8>::empty() =~= wire_seq::<T>(vs));
        lemma_unwire_seq_skip::<T>(wire_seq::<T>(vs), vs.len());
        lemma_skip_n_extends::<T>(p, t, vs.len());
        lemma_skip_n_bounds::<T>(p, vs.len());
    }
}


/// A variant index written in a tag type is read back in that tag type as the same
/// index, and the read stops where the variant's fields begin.
pub proof fn lemma_tag_roundtrip(tag: TagType, index: u64, rest: Seq<u8>)
    requires
        index < tag_capacity(tag),
    ensures
        take_be(be_encode(index as nat, tag_width(tag)) + rest, tag_width(tag)) == Ok::<(nat, nat), WireError>(
            (index as nat, tag_width(tag)),
        ),
        (be_encode(index as nat, tag_width(tag)) + rest).skip(tag_width(tag) as int) == rest,
{
    lemma_pow256_values();
    lemma_take_be_roundtrip(index as nat, tag_width(tag), rest);
    assert((be_encode(index as nat, tag_width(tag)) + rest).skip(tag_width(tag) as int) =~= rest);
}


/// Whether a `#[tag(..)]` entry names a supported type that numbers `variants`
/// variants: `u8` up to 255, `u16` up to 65535, `u32` up to 4294967295.
pub open spec fn tag_request_fits(r: TagRequest, variants: nat) -> bool {
    match r {
        TagRequest::U8 => variants <= 255,
        TagRequest::U16 => variants <= 65535,
        TagRequest::U32 => variants <= 4294967295,
        TagRequest::Other => false,
    }
}

/// The tag type a supported `#[tag(..)]` entry names.
pub open spec fn tag_request_type(r: TagRequest) -> TagType {
    match r {
        TagRequest::U8 => TagType::U8,
        TagRequest::U32 => TagType::U32,
        _ => TagType::U16,
    }
}

/// The tag type of an enum is `u16` where no `#[tag(..)]` entry is given, and the type
/// the last entry names where every entry names a supported type with room for every
/// variant. Otherwise the first entry that does not is refused: as unsupported where
/// it names another type, and for too many variants where its type is too small.
pub proof fn lemma_select_tag_choice(requests: Seq<TagRequest>, variants: nat)
    ensures
        (forall|j: int| 0 <= j < requests.len() ==> tag_request_fits(#[trigger] requests[j], variants))
            ==> spec_select_tag(requests, variants) == Ok::<TagType, AttributeError>(
            if requests.len() == 0 {
                TagType::U16
            } else {
                tag_request_type(requests.last())
            },
        ),
        forall|j: int|
            0 <= j < requests.len() && !tag_request_fits(#[trigger] requests[j], variants) && (forall|i: int|
                0 <= i < j ==> tag_request_fits(#[trigger] requests[i], variants)) ==> spec_select_tag(requests, variants)
                == Err::<TagType, AttributeError>(
                if requests[j] == TagRequest::Other {
                    AttributeError::UnsupportedTag
                } else {
                    AttributeError::TooManyVariants
                },
            ),
    decreases requests.len(),
{
    if requests.len() > 0 {
        let init = requests.drop_last();
        lemma_select_tag_choice(init, variants);
        assert forall|j: int| 0 <= j < init.len() implies init[j] == requests[j] by {}
        assert forall|j: int|
            0 <= j < requests.len() && !tag_request_fits(#[trigger] requests[j], variants) && (forall|i: int|
                0 <= i < j ==> tag_request_fits(#[trigger] requests[i], variants)) implies spec_select_tag(requests, variants)
                == Err::<TagType, AttributeError>(
                if requests[j] == TagRequest::Other {
                    AttributeError::UnsupportedTag
                } else {
                    AttributeError::TooManyVariants
                },
            ) by {
            if j < init.len() {
                assert(init[j] == requests[j]);
                assert(forall|i: int| 0 <= i < j ==> init[i] == requests[i]);
            } else {
                assert(forall|i: int| 0 <= i < init.len() ==> init[i] == requests[i]);
            }
        }
    }
}


/// The number of fields in the group that field `f`'s attribute starts: the number
/// `#[fixed(n)]` names, or every field from `f` to the last for `#[fixed]`; none
/// without an attribute.
pub open spec fn fixed_group_len(attrs: Seq<FixedAttr>, f: int) -> int {
    match attrs[f] {
        FixedAttr::Absent => 0,
        FixedAttr::Rest => attrs.len() - f,
        FixedAttr::Count(n) => n as int,
    }
}

/// Whether field `g` lies in the group that field `f` starts.
pub open spec fn in_fixed_group(attrs: Seq<FixedAttr>, f: int, g: int) -> bool {
    &&& 0 <= f < attrs.len()
    &&& attrs[f] != FixedAttr::Absent
    &&& f <= g < f + fixed_group_len(attrs, f)
}

/// The role of field `g` in the group that field `f` starts: its first field starts
/// it, its last field ends it, and the fields between are inside it.
pub open spec fn role_in_group(attrs: Seq<FixedAttr>, f: int, g: int) -> FieldRole {
    if g == f {
        FieldRole::Start
    } else if g == f + fixed_group_len(attrs, f) - 1 {
        FieldRole::End
    } else {
        FieldRole::Middle
    }
}

/// Whether the attributes of the fields before field `i` are used as intended: each
/// group they start has at least two fields and ends by the last field, and no
/// attribute among the first `i` fields stands inside an earlier group.
pub open spec fn fixed_used_upto(attrs: Seq<FixedAttr>, i: int) -> bool {
    forall|f: int|
        0 <= f < i && attrs[f] != FixedAttr::Absent ==> {
            &&& 2 <= #[trigger] fixed_group_len(attrs, f)
            &&& f + fixed_group_len(attrs, f) <= attrs.len()
            &&& forall|g: int| f < g < i && g < f + fixed_group_len(attrs, f) ==> attrs[g] == FixedAttr::Absent
        }
}

/// What holds after the first `i` fields are laid out: the layout is not refused
/// exactly where their attributes are used as intended, and then each field has the
/// role of the group it lies in, or stands alone, and the open group has the fields
/// left that its attribute named.
pub open spec fn plan_prefix_meaning(attrs: Seq<FixedAttr>, i: int) -> bool {
    &&& (spec_plan_prefix(attrs, i as nat) is Ok <==> fixed_used_upto(attrs, i))
    &&& spec_plan_prefix(attrs, i as nat) matches Ok((roles, open)) ==> {
        &&& roles.len() == i
        &&& forall|f: int, g: int|
            0 <= g < i && #[trigger] in_fixed_group(attrs, f, g) ==> roles[g] == role_in_group(attrs, f, g)
        &&& forall|g: int|
            0 <= g < i && (forall|f: int| !#[trigger] in_fixed_group(attrs, f, g)) ==> roles[g] == FieldRole::Alone
        &&& forall|f: int|
            0 <= f < i && attrs[f] != FixedAttr::Absent && i < f + #[trigger] fixed_group_len(attrs, f) ==> open
                == Some((f + fixed_group_len(attrs, f) - i) as nat)
        &&& open matches Some(c) ==> c >= 1 && exists|f: int|
            0 <= f < i && attrs[f] != FixedAttr::Absent && f + #[trigger] fixed_group_len(attrs, f) == c + i
    }
}


/// Laying out the fields one at a time keeps `plan_prefix_meaning`.
proof fn lemma_plan_prefix_meaning(attrs: Seq<FixedAttr>, i: nat)
    requires
        i <= attrs.len(),
    ensures
        plan_prefix_meaning(attrs, i as int),
    decreases i,
{
    if i == 0 {
        return;
    }
    let p = (i - 1) as nat;
    let k = i as int;
    lemma_plan_prefix_meaning(attrs, p);
    let len = attrs.len() as int;
    let a = attrs[p as int];
    // Being used as intended up to `k` implies it up to `p`.
    assert(fixed_used_upto(attrs, k) ==> fixed_used_upto(attrs, p as int)) by {
        if fixed_used_upto(attrs, k) {
            assert forall|f: int| 0 <= f < p && attrs[f] != FixedAttr::Absent implies {
                &&& 2 <= #[trigger] fixed_group_len(attrs, f)
                &&& f + fixed_group_len(attrs, f) <= attrs.len()
                &&& forall|g: int| f < g < p && g < f + fixed_group_len(attrs, f) ==> attrs[g] == FixedAttr::Absent
            } by {
                assert(0 <= f < k);
            }
        }
    }
    match spec_plan_prefix(attrs, p) {
        Err(_) => {
        },
        Ok((roles, open)) => {
            let ghost gs = spec_group_start(a, open, p, attrs.len());
            // The group, if any, that covers field `p` started before it and is the open one.
            assert forall|f: int| #[trigger] in_fixed_group(attrs, f, p as int) && f < p implies open == Some(
                (f + fixed_group_len(attrs, f) - p) as nat,
            ) by {
            }
            if a == FixedAttr::Absent {
                assert(gs == Ok::<Option<nat>, AttributeError>(None));
                assert(fixed_used_upto(attrs, p as int) ==> fixed_used_upto(attrs, k)) by {
                    if fixed_used_upto(attrs, p as int) {
                        assert forall|f: int| 0 <= f < k && attrs[f] != FixedAttr::Absent implies {
                            &&& 2 <= #[trigger] fixed_group_len(attrs, f)
                            &&& f + fixed_group_len(attrs, f) <= attrs.len()
                            &&& forall|g: int| f < g < k && g < f + fixed_group_len(attrs, f) ==> attrs[g] == FixedAttr::Absent
                        } by {
                            assert(f < p);
                        }
                    }
                }
                let (roles2, open2) = spec_plan_prefix(attrs, i)->Ok_0;
                assert forall|g: int| 0 <= g < p implies roles2[g] == roles[g] by {}
                assert forall|f: int, g: int|
                    0 <= g < k && #[trigger] in_fixed_group(attrs, f, g) implies roles2[g] == role_in_group(attrs, f, g) by {
                    if g == p {
                        assert(f < p);
                    }
                }
                assert forall|g: int|
                    0 <= g < k && (forall|f: int| !#[trigger] in_fixed_group(attrs, f, g)) implies roles2[g] == FieldRole::Alone by {
                    if g == p {
                        if open is Some {
                            let f = choose|f: int|
                                0 <= f < p && attrs[f] != FixedAttr::Absent && f + #[trigger] fixed_group_len(attrs, f)
                                    == open->Some_0 + p;
                            assert(in_fixed_group(attrs, f, g));
                        }
                    }
                }
                assert forall|f: int|
                    0 <= f < k && attrs[f] != FixedAttr::Absent && k < f + #[trigger] fixed_group_len(attrs, f) implies open2
                    == Some((f + fixed_group_len(attrs, f) - k) as nat) by {
                    assert(f < p);
                }
                if open2 is Some {
                    let c = open->Some_0;
                    let f = choose|f: int|
                        0 <= f < p && attrs[f] != FixedAttr::Absent && f + #[trigger] fixed_group_len(attrs, f) == c + p;
                    assert(f + fixed_group_len(attrs, f) == open2->Some_0 + k);
                }
            } else if open is Some {
                let c = open->Some_0;
                let f = choose|f: int|
                    0 <= f < p && attrs[f] != FixedAttr::Absent && f + #[trigger] fixed_group_len(attrs, f) == c + p;
                assert(!fixed_used_upto(attrs, k)) by {
                    if fixed_used_upto(attrs, k) {
                        assert(0 <= f < k && attrs[f] != FixedAttr::Absent);
                        assert(p < f + fixed_group_len(attrs, f));
                    }
                }
            } else {
                // No group covers field `p`, so only its own attribute decides.
                assert forall|f: int| 0 <= f < p && attrs[f] != FixedAttr::Absent implies f + #[trigger] fixed_group_len(
                    attrs,
                    f,
                ) <= p by {
                }
                assert(fixed_used_upto(attrs, k) <==> (2 <= fixed_group_len(attrs, p as int) && p + fixed_group_len(
                    attrs,
                    p as int,
                ) <= len)) by {
                    if 2 <= fixed_group_len(attrs, p as int) && p + fixed_group_len(attrs, p as int) <= len {
                        assert forall|f: int| 0 <= f < k && attrs[f] != FixedAttr::Absent implies {
                            &&& 2 <= #[trigger] fixed_group_len(attrs, f)
                            &&& f + fixed_group_len(attrs, f) <= attrs.len()
                            &&& forall|g: int| f < g < k && g < f + fixed_group_len(attrs, f) ==> attrs[g] == FixedAttr::Absent
                        } by {
                        }
                    }
                    if fixed_used_upto(attrs, k) {
                        assert(0 <= p < k && attrs[p as int] != FixedAttr::Absent);
                    }
                }
                if gs is Ok {
                    let (roles2, open2) = spec_plan_prefix(attrs, i)->Ok_0;
                    assert forall|g: int| 0 <= g < p implies roles2[g] == roles[g] by {}
                    assert forall|f: int, g: int|
                        0 <= g < k && #[trigger] in_fixed_group(attrs, f, g) implies roles2[g] == role_in_group(attrs, f, g) by {
                        if g == p {
                            assert(f == p);
                        }
                    }
                    assert forall|g: int|
                        0 <= g < k && (forall|f: int| !#[trigger] in_fixed_group(attrs, f, g)) implies roles2[g] == FieldRole::Alone by {
                        if g == p {
                            assert(in_fixed_group(attrs, p as int, g));
                        }
                    }
                    assert forall|f: int|
                        0 <= f < k && attrs[f] != FixedAttr::Absent && k < f + #[trigger] fixed_group_len(attrs, f) implies open2
                        == Some((f + fixed_group_len(attrs, f) - k) as nat) by {
                    }
                    assert(p + fixed_group_len(attrs, p as int) == open2->Some_0 + k);
                }
            }
        },
    }
}


/// Where a layout is refused because `#[fixed(n)]` stands on a struct of a single
/// field, the struct has exactly one field.
proof fn lemma_plan_single_field(attrs: Seq<FixedAttr>, i: nat)
    ensures
        spec_plan_prefix(attrs, i) == Err::<(Seq<FieldRole>, Option<nat>), AttributeError>(
            AttributeError::FixedSingleField,
        ) ==> attrs.len() == 1,
    decreases i,
{
    if i > 0 {
        lemma_plan_single_field(attrs, (i - 1) as nat);
    }
}

/// A struct's layout is accepted exactly where its `fixed` attributes are used as
/// intended: every group has at least two fields and ends by the last field, and no
/// attribute stands inside a group. Then each group has exactly the fields its
/// attribute names, `n` for `#[fixed(n)]` and the rest for `#[fixed]`: its first field
/// starts it, its last field ends it, the fields between lie inside it, and every
/// field outside all groups stands alone. A layout is refused for a single field only
/// on a struct of one field.
pub proof fn lemma_plan_fixed_layout(attrs: Seq<FixedAttr>)
    ensures
        spec_plan_fixed(attrs) is Ok <==> fixed_used_upto(attrs, attrs.len() as int),
        spec_plan_fixed(attrs) matches Ok(roles) ==> {
            &&& roles.len() == attrs.len()
            &&& forall|f: int, g: int| #[trigger] in_fixed_group(attrs, f, g) ==> roles[g] == role_in_group(attrs, f, g)
            &&& forall|g: int|
                0 <= g < attrs.len() && (forall|f: int| !#[trigger] in_fixed_group(attrs, f, g)) ==> roles[g]
                    == FieldRole::Alone
        },
        spec_plan_fixed(attrs) == Err::<Seq<FieldRole>, AttributeError>(AttributeError::FixedSingleField) ==> attrs.len()
            == 1,
{
    lemma_plan_prefix_meaning(attrs, attrs.len());
    lemma_plan_single_field(attrs, attrs.len());
    if spec_plan_fixed(attrs) is Ok {
        let roles = spec_plan_fixed(attrs)->Ok_0;
        assert forall|f: int, g: int| #[trigger] in_fixed_group(attrs, f, g) implies roles[g] == role_in_group(attrs, f, g) by {
            assert(fixed_group_len(attrs, f) >= 2);
        }
    }
}


/// Why the attribute of field `f` is refused, where it is the first one misused: it
/// stands inside a group an earlier field started; `#[fixed]` leaves fewer than two
/// fields; `#[fixed(n)]` stands on a struct of one field, names fewer than two
/// fields, or runs past the last field.
pub open spec fn fixed_refusal(attrs: Seq<FixedAttr>, f: int) -> AttributeError {
    if exists|g: int| 0 <= g < f && #[trigger] in_fixed_group(attrs, g, f) {
        AttributeError::FixedConflict
    } else {
        match attrs[f] {
            FixedAttr::Count(n) => if attrs.len() == 1 {
                AttributeError::FixedSingleField
            } else if n < 2 {
                AttributeError::FixedTooShort
            } else {
                AttributeError::FixedBeyondEnd
            },
            _ => AttributeError::FixedTooShort,
        }
    }
}

/// A layout whose first misused attribute is that of field `f` is refused for the
/// reason that attribute is misused.
pub proof fn lemma_plan_fixed_refusal(attrs: Seq<FixedAttr>, f: int)
    requires
        0 <= f < attrs.len(),
        fixed_used_upto(attrs, f),
        !fixed_used_upto(attrs, f + 1),
    ensures
        spec_plan_fixed(attrs) == Err::<Seq<FieldRole>, AttributeError>(fixed_refusal(attrs, f)),
{
    lemma_plan_prefix_meaning(attrs, f as nat);
    lemma_plan_prefix_meaning(attrs, (f + 1) as nat);
    let (roles, open) = spec_plan_prefix(attrs, f as nat)->Ok_0;
    if exists|g: int| 0 <= g < f && #[trigger] in_fixed_group(attrs, g, f) {
        let g = choose|g: int| 0 <= g < f && #[trigger] in_fixed_group(attrs, g, f);
        assert(open == Some((g + fixed_group_len(attrs, g) - f) as nat));
    } else if open is Some {
        let c = open->Some_0;
        let g = choose|g: int|
            0 <= g < f && attrs[g] != FixedAttr::Absent && g + #[trigger] fixed_group_len(attrs, g) == c + f;
        assert(in_fixed_group(attrs, g, f));
    }
    if attrs[f] == FixedAttr::Absent {
        assert(fixed_used_upto(attrs, f + 1)) by {
            assert forall|h: int| 0 <= h < f + 1 && attrs[h] != FixedAttr::Absent implies {
                &&& 2 <= #[trigger] fixed_group_len(attrs, h)
                &&& h + fixed_group_len(attrs, h) <= attrs.len()
                &&& forall|g: int| h < g < f + 1 && g < h + fixed_group_len(attrs, h) ==> attrs[g] == FixedAttr::Absent
            } by {
                assert(h < f);
            }
        }
    }
    lemma_plan_error_stays(attrs, (f + 1) as nat, attrs.len());
}


/// A variant index is written exactly as the integer of its tag type is written, and
/// a tag type numbers as many variants as its integer has values but one.
pub proof fn lemma_tag_written_as_its_integer(tag: TagType, index: u64)
    requires
        index < tag_capacity(tag),
    ensures
        be_encode(index as nat, tag_width(tag)) == match tag {
            TagType::U8 => <u8 as Wiring>::spec_wire(index as u8),
            TagType::U16 => <u16 as Wiring>::spec_wire(index as u16),
            TagType::U32 => <u32 as Wiring>::spec_wire(index as u32),
        },
        tag_capacity(tag) + 1 == pow256(tag_width(tag)),
{
    lemma_pow256_values();
}

} // verus!
