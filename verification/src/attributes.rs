//! The rules for the attributes that shape derived impls.
//!
//! `#[tag(..)]` on an enum names the integer type its variant index is written as;
//! `#[fixed]` and `#[fixed(n)]` on a struct field start a group of fixed-size fields,
//! the rest of the fields or the next `n` of them, that are written as one buffer.
//! A derived impl is refused where these attributes do not make sense; the functions
//! here decide that, and lay out the groups.
use vstd::prelude::*;

use crate::endian::{be_encode, lemma_be_decode_bound, lemma_pow256_values};
use crate::error::WireError;
use crate::unwire::{take_be, Unwire};
use crate::wire::{Wire, Wiring};

verus! {

/// The integer type an enum's variant index is written as.
#[derive(Debug, Clone, Copy, PartialEq, Eq, Structural)]
pub enum TagType {
    U8,
    U16,
    U32,
}

/// What one entry of a `#[tag(..)]` attribute names.
#[derive(Debug, Clone, Copy, PartialEq, Eq, Structural)]
pub enum TagRequest {
    U8,
    U16,
    U32,
    /// Any other name; only the three unsigned types above are supported.
    Other,
}

/// The `fixed` attribute of one struct field.
#[derive(Debug, Clone, Copy, PartialEq, Eq, Structural)]
pub enum FixedAttr {
    /// The field has no `fixed` attribute.
    Absent,
    /// `#[fixed]`: a group from this field to the last.
    Rest,
    /// `#[fixed(n)]`: a group of `n` fields from this one.
    Count(u64),
}

/// Where a field stands in the layout of a derived struct impl.
#[derive(Debug, Clone, Copy, PartialEq, Eq, Structural)]
pub enum FieldRole {
    /// Written on its own.
    Alone,
    /// The first field of a fixed group.
    Start,
    /// A field inside a fixed group, neither its first nor its last.
    Middle,
    /// The last field of a fixed group, after which the group's buffer is written.
    End,
}

/// Why a derived impl is refused.
#[derive(Debug, Clone, Copy, PartialEq, Eq, Structural)]
pub enum AttributeError {
    /// The enum has more variants than the tag type can number.
    TooManyVariants,
    /// The tag names a type other than `u8`, `u16` or `u32`.
    UnsupportedTag,
    /// A `fixed` attribute stands inside a group an earlier one started.
    FixedConflict,
    /// `#[fixed(n)]` on a struct with a single field.
    FixedSingleField,
    /// A group of fewer than two fields.
    FixedTooShort,
    /// A group that runs past the last field.
    FixedBeyondEnd,
}

/// The largest variant count a tag type takes.
pub open spec fn tag_capacity(t: TagType) -> nat {
    match t {
        TagType::U8 => 0xff,
        TagType::U16 => 0xffff,
        TagType::U32 => 0xffff_ffff,
    }
}

/// The tag type the entries of `#[tag(..)]` attributes choose, read in order, for an
/// enum of `variants` variants: `u16` where there is none, else the last one; each
/// entry must be a supported type with room for every variant.
pub open spec fn spec_select_tag(requests: Seq<TagRequest>, variants: nat) -> Result<TagType, AttributeError>
    decreases requests.len(),
{
    if requests.len() == 0 {
        Ok(TagType::U16)
    } else {
        match spec_select_tag(requests.drop_last(), variants) {
            Err(e) => Err(e),
            Ok(_) => {
                let t = match requests.last() {
                    TagRequest::U8 => Some(TagType::U8),
                    TagRequest::U16 => Some(TagType::U16),
                    TagRequest::U32 => Some(TagType::U32),
                    TagRequest::Other => None,
                };
                match t {
                    None => Err(AttributeError::UnsupportedTag),
                    Some(t) => if variants > tag_capacity(t) {
                        Err(AttributeError::TooManyVariants)
                    } else {
                        Ok(t)
                    },
                }
            },
        }
    }
}

/// Once an entry is refused, the choice stays refused for that reason, whatever
/// entries follow.
pub proof fn lemma_select_tag_error_stays(s: Seq<TagRequest>, j: int, variants: nat)
    requires
        0 <= j <= s.len(),
        spec_select_tag(s.take(j), variants) is Err,
    ensures
        spec_select_tag(s, variants) == spec_select_tag(s.take(j), variants),
    decreases s.len(),
{
    if j < s.len() {
        assert(s.drop_last().take(j) =~= s.take(j));
        lemma_select_tag_error_stays(s.drop_last(), j, variants);
    } else {
        assert(s.take(j) =~= s);
    }
}

/// Choose the tag type of an enum with `variants` variants from the entries of its
/// `#[tag(..)]` attributes.
pub fn select_tag(requests: &Vec<TagRequest>, variants: u64) -> (r: Result<TagType, AttributeError>)
    ensures
        r == spec_select_tag(requests@, variants as nat),
{
    let mut tag = TagType::U16;
    let mut i: usize = 0;
    while i < requests.len()
        invariant
            i <= requests@.len(),
            spec_select_tag(requests@.take(i as int), variants as nat) == Ok::<TagType, AttributeError>(tag),
        decreases requests@.len() - i,
    {
        assert(requests@.take(i + 1).drop_last() =~= requests@.take(i as int));
        assert(requests@.take(i + 1).last() == requests@[i as int]);
        let t = match requests[i] {
            TagRequest::U8 => TagType::U8,
            TagRequest::U16 => TagType::U16,
            TagRequest::U32 => TagType::U32,
            TagRequest::Other => {
                proof {
                    lemma_select_tag_error_stays(requests@, i + 1, variants as nat);
                }
                return Err(AttributeError::UnsupportedTag);
            },
        };
        let capacity: u64 = match t {
            TagType::U8 => 0xff,
            TagType::U16 => 0xffff,
            TagType::U32 => 0xffff_ffff,
        };
        if variants > capacity {
            proof {
                lemma_select_tag_error_stays(requests@, i + 1, variants as nat);
            }
            return Err(AttributeError::TooManyVariants);
        }
        tag = t;
        i = i + 1;
    }
    assert(requests@.take(i as int) =~= requests@);
    Ok(tag)
}

/// The group a field's `fixed` attribute starts, given the group still open (how many
/// of its fields are left) and that the field is field `f` of `len`: none, the number
/// of fields in the new group, or why the attribute is refused.
pub open spec fn spec_group_start(a: FixedAttr, open: Option<nat>, f: nat, len: nat) -> Result<Option<nat>, AttributeError> {
    match a {
        FixedAttr::Absent => Ok(None),
        FixedAttr::Rest => if open is Some {
            Err(AttributeError::FixedConflict)
        } else if len - f < 2 {
            Err(AttributeError::FixedTooShort)
        } else {
            Ok(Some((len - f) as nat))
        },
        FixedAttr::Count(t) => if open is Some {
            Err(AttributeError::FixedConflict)
        } else if len == 1 {
            Err(AttributeError::FixedSingleField)
        } else if t < 2 {
            Err(AttributeError::FixedTooShort)
        } else if t > len - f {
            Err(AttributeError::FixedBeyondEnd)
        } else {
            Ok(Some(t as nat))
        },
    }
}

/// The roles of the first `i` fields, and the fields left in the group still open
/// after them; or the error of the first refused attribute among them.
pub open spec fn spec_plan_prefix(attrs: Seq<FixedAttr>, i: nat) -> Result<(Seq<FieldRole>, Option<nat>), AttributeError>
    decreases i,
{
    if i == 0 {
        Ok((Seq::empty(), None))
    } else {
        match spec_plan_prefix(attrs, (i - 1) as nat) {
            Err(e) => Err(e),
            Ok((roles, open)) => match spec_group_start(attrs[i - 1], open, (i - 1) as nat, attrs.len()) {
                Err(e) => Err(e),
                Ok(Some(t)) => Ok((roles.push(FieldRole::Start), Some((t - 1) as nat))),
                Ok(None) => match open {
                    None => Ok((roles.push(FieldRole::Alone), None)),
                    Some(c) => if c <= 1 {
                        Ok((roles.push(FieldRole::End), None))
                    } else {
                        Ok((roles.push(FieldRole::Middle), Some((c - 1) as nat)))
                    },
                },
            },
        }
    }
}

/// The layout of a struct's fields, given their `fixed` attributes in order.
pub open spec fn spec_plan_fixed(attrs: Seq<FixedAttr>) -> Result<Seq<FieldRole>, AttributeError> {
    match spec_plan_prefix(attrs, attrs.len()) {
        Err(e) => Err(e),
        Ok((roles, _)) => Ok(roles),
    }
}

/// A group never runs past the fields: after `i` fields, the open group has no more
/// fields left than there are fields after them.
pub proof fn lemma_plan_prefix_open(attrs: Seq<FixedAttr>, i: nat)
    requires
        i <= attrs.len(),
    ensures
        spec_plan_prefix(attrs, i) matches Ok((roles, open)) ==> {
            &&& roles.len() == i
            &&& open matches Some(c) ==> 1 <= c <= attrs.len() - i
        },
    decreases i,
{
    if i > 0 {
        lemma_plan_prefix_open(attrs, (i - 1) as nat);
    }
}

/// In a layout that is not refused, the fields that start a group are exactly those
/// with a `fixed` attribute.
pub proof fn lemma_plan_prefix_starts(attrs: Seq<FixedAttr>, i: nat)
    requires
        i <= attrs.len(),
    ensures
        spec_plan_prefix(attrs, i) matches Ok((roles, _)) ==> forall|f: int|
            0 <= f < i ==> (#[trigger] roles[f] == FieldRole::Start <==> attrs[f] != FixedAttr::Absent),
    decreases i,
{
    if i > 0 {
        lemma_plan_prefix_starts(attrs, (i - 1) as nat);
        lemma_plan_prefix_open(attrs, (i - 1) as nat);
    }
}

/// Once an attribute is refused, the layout stays refused for that reason, whatever
/// fields follow.
pub proof fn lemma_plan_error_stays(attrs: Seq<FixedAttr>, i: nat, j: nat)
    requires
        i <= j,
        spec_plan_prefix(attrs, i) is Err,
    ensures
        spec_plan_prefix(attrs, j) == spec_plan_prefix(attrs, i),
    decreases j,
{
    if j > i {
        lemma_plan_error_stays(attrs, i, (j - 1) as nat);
    }
}

/// Lay out a struct's fields from their `fixed` attributes, in order: each attribute
/// starts a group, which ends after the number of fields it names, or at the last
/// field for `#[fixed]`.
pub fn plan_fixed(attrs: &Vec<FixedAttr>) -> (r: Result<Vec<FieldRole>, AttributeError>)
    ensures
        match spec_plan_fixed(attrs@) {
            Ok(roles) => r is Ok && r->Ok_0@ == roles,
            Err(e) => r == Err::<Vec<FieldRole>, AttributeError>(e),
        },
{
    let len = attrs.len();
    let mut roles: Vec<FieldRole> = Vec::new();
    let mut open: Option<u64> = None;
    let mut f: usize = 0;
    while f < len
        invariant
            f <= len,
            len == attrs@.len(),
            spec_plan_prefix(attrs@, f as nat) == Ok::<(Seq<FieldRole>, Option<nat>), AttributeError>(
                (roles@, match open {
                    Some(c) => Some(c as nat),
                    None => None,
                }),
            ),
        decreases len - f,
    {
        proof {
            lemma_plan_prefix_open(attrs@, f as nat);
        }
        let remaining: u64 = (len - f) as u64;
        let started: Option<u64> = match attrs[f] {
            FixedAttr::Absent => None,
            FixedAttr::Rest => {
                if open.is_some() {
                    proof {
                        lemma_plan_error_stays(attrs@, (f + 1) as nat, len as nat);
                    }
                    return Err(AttributeError::FixedConflict);
                }
                if remaining < 2 {
                    proof {
                        lemma_plan_error_stays(attrs@, (f + 1) as nat, len as nat);
                    }
                    return Err(AttributeError::FixedTooShort);
                }
                Some(remaining)
            },
            FixedAttr::Count(t) => {
                if open.is_some() {
                    proof {
                        lemma_plan_error_stays(attrs@, (f + 1) as nat, len as nat);
                    }
                    return Err(AttributeError::FixedConflict);
                }
                if len == 1 {
                    proof {
                        lemma_plan_error_stays(attrs@, (f + 1) as nat, len as nat);
                    }
                    return Err(AttributeError::FixedSingleField);
                }
                if t < 2 {
                    proof {
                        lemma_plan_error_stays(attrs@, (f + 1) as nat, len as nat);
                    }
                    return Err(AttributeError::FixedTooShort);
                }
                if t > remaining {
                    proof {
                        lemma_plan_error_stays(attrs@, (f + 1) as nat, len as nat);
                    }
                    return Err(AttributeError::FixedBeyondEnd);
                }
                Some(t)
            },
        };
        match started {
            Some(t) => {
                roles.push(FieldRole::Start);
                open = Some(t - 1);
            },
            None => match open {
                None => {
                    roles.push(FieldRole::Alone);
                },
                Some(c) => {
                    if c <= 1 {
                        roles.push(FieldRole::End);
                        open = None;
                    } else {
                        roles.push(FieldRole::Middle);
                        open = Some(c - 1);
                    }
                },
            },
        }
        f = f + 1;
    }
    Ok(roles)
}


/// The number of bytes a variant index takes in a tag type.
pub open spec fn tag_width(t: TagType) -> nat {
    match t {
        TagType::U8 => 1,
        TagType::U16 => 2,
        TagType::U32 => 4,
    }
}

/// Write a variant index as the tag type, most significant byte first, as a derived
/// impl for an enum does before the variant's fields.
pub fn wire_tag<W: Wire>(tag: TagType, index: u64, wire: &mut W) -> (r: Result<(), WireError>)
    requires
        index < tag_capacity(tag),
    ensures
        r is Ok,
        final(wire).written() == old(wire).written() + be_encode(index as nat, tag_width(tag)),
{
    match tag {
        TagType::U8 => (index as u8).sync_wiring(wire),
        TagType::U16 => (index as u16).sync_wiring(wire),
        TagType::U32 => (index as u32).sync_wiring(wire),
    }
}

/// Read a variant index written as the tag type, and refuse one that names none of
/// an enum's `variants` variants, as a derived impl for an enum does before it
/// reads the variant's fields.
pub fn unwire_tag<W: Unwire>(tag: TagType, variants: u64, wire: &mut W) -> (r: Result<u64, WireError>)
    ensures
        match take_be(old(wire).unread(), tag_width(tag)) {
            Ok((v, k)) => {
                &&& final(wire).unread() == old(wire).unread().skip(k as int)
                &&& v < variants ==> r == Ok::<u64, WireError>(v as u64)
                &&& v >= variants ==> r == Err::<u64, WireError>(WireError::InvalidData)
            },
            Err(e) => r == Err::<u64, WireError>(e) && final(wire).unread() == old(wire).unread(),
        },
{
    let ghost s = wire.unread();
    let width: usize = match tag {
        TagType::U8 => 1,
        TagType::U16 => 2,
        TagType::U32 => 4,
    };
    match wire.sync_unwire_be(width) {
        Ok(x) => {
            proof {
                lemma_pow256_values();
                lemma_be_decode_bound(s.take(width as int));
            }
            if x < variants as u128 {
                Ok(x as u64)
            } else {
                Err(WireError::InvalidData)
            }
        },
        Err(e) => Err(e),
    }
}

} // verus!
