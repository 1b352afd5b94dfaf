use wiring::attributes::plan_fixed;
use wiring::attributes::select_tag;
use wiring::attributes::AttributeError;
use wiring::attributes::FieldRole;
use wiring::attributes::FixedAttr;
use wiring::attributes::TagRequest;
use wiring::attributes::TagType;
use wiring::attributes::{unwire_tag, wire_tag};
use wiring::error::WireError;

#[test]
fn tag_defaults_to_u16() {
    assert_eq!(select_tag(&vec![], 3), Ok(TagType::U16));
    assert_eq!(select_tag(&vec![], 0xffff), Ok(TagType::U16));
    assert_eq!(select_tag(&vec![], 0x1_0000), Ok(TagType::U16));
}

#[test]
fn tag_takes_the_last_request() {
    assert_eq!(select_tag(&vec![TagRequest::U8], 2), Ok(TagType::U8));
    assert_eq!(select_tag(&vec![TagRequest::U8, TagRequest::U32], 2), Ok(TagType::U32));
    assert_eq!(select_tag(&vec![TagRequest::U32], 0x1_0000), Ok(TagType::U32));
}

#[test]
fn tag_refuses_small_types_and_unknown_names() {
    assert_eq!(select_tag(&vec![TagRequest::U8], 256), Err(AttributeError::TooManyVariants));
    assert_eq!(select_tag(&vec![TagRequest::U8], 255), Ok(TagType::U8));
    assert_eq!(select_tag(&vec![TagRequest::Other], 1), Err(AttributeError::UnsupportedTag));
    assert_eq!(
        select_tag(&vec![TagRequest::Other, TagRequest::U16], 1),
        Err(AttributeError::UnsupportedTag)
    );
}

// Three fields, the first with `#[fixed(2)]`.
#[test]
fn fixed_count_groups_the_next_fields() {
    let attrs = vec![FixedAttr::Count(2), FixedAttr::Absent, FixedAttr::Absent];
    assert_eq!(plan_fixed(&attrs), Ok(vec![FieldRole::Start, FieldRole::End, FieldRole::Alone]));
}

// Two fields, the first with `#[fixed]`.
#[test]
fn fixed_alone_groups_the_rest() {
    let attrs = vec![FixedAttr::Rest, FixedAttr::Absent];
    assert_eq!(plan_fixed(&attrs), Ok(vec![FieldRole::Start, FieldRole::End]));
    let attrs = vec![FixedAttr::Absent, FixedAttr::Rest, FixedAttr::Absent, FixedAttr::Absent];
    assert_eq!(
        plan_fixed(&attrs),
        Ok(vec![FieldRole::Alone, FieldRole::Start, FieldRole::Middle, FieldRole::End])
    );
}

#[test]
fn fixed_groups_may_follow_each_other() {
    let attrs = vec![FixedAttr::Count(2), FixedAttr::Absent, FixedAttr::Count(2), FixedAttr::Absent];
    assert_eq!(
        plan_fixed(&attrs),
        Ok(vec![FieldRole::Start, FieldRole::End, FieldRole::Start, FieldRole::End])
    );
    assert_eq!(plan_fixed(&vec![]), Ok(vec![]));
    assert_eq!(plan_fixed(&vec![FixedAttr::Absent]), Ok(vec![FieldRole::Alone]));
}

#[test]
fn fixed_misuse_is_refused() {
    assert_eq!(
        plan_fixed(&vec![FixedAttr::Rest, FixedAttr::Count(2), FixedAttr::Absent]),
        Err(AttributeError::FixedConflict)
    );
    assert_eq!(plan_fixed(&vec![FixedAttr::Count(2)]), Err(AttributeError::FixedSingleField));
    assert_eq!(plan_fixed(&vec![FixedAttr::Rest]), Err(AttributeError::FixedTooShort));
    assert_eq!(
        plan_fixed(&vec![FixedAttr::Count(1), FixedAttr::Absent]),
        Err(AttributeError::FixedTooShort)
    );
    assert_eq!(
        plan_fixed(&vec![FixedAttr::Absent, FixedAttr::Count(3), FixedAttr::Absent]),
        Err(AttributeError::FixedBeyondEnd)
    );
    assert_eq!(
        plan_fixed(&vec![FixedAttr::Absent, FixedAttr::Absent, FixedAttr::Rest]),
        Err(AttributeError::FixedTooShort)
    );
}

#[test]
fn a_tag_is_written_in_its_width() {
    let mut out: Vec<u8> = Vec::new();
    assert_eq!(wire_tag(TagType::U8, 7, &mut out), Ok(()));
    assert_eq!(out, vec![7]);
    let mut out: Vec<u8> = vec![9];
    assert_eq!(wire_tag(TagType::U16, 0x0102, &mut out), Ok(()));
    assert_eq!(out, vec![9, 1, 2]);
    let mut out: Vec<u8> = Vec::new();
    assert_eq!(wire_tag(TagType::U32, 5, &mut out), Ok(()));
    assert_eq!(out, vec![0, 0, 0, 5]);
}

#[test]
fn a_tag_reads_back_as_its_index() {
    for (tag, index) in [(TagType::U8, 3u64), (TagType::U16, 300), (TagType::U32, 70000)] {
        let mut out: Vec<u8> = Vec::new();
        wire_tag(tag, index, &mut out).unwrap();
        out.push(42);
        let mut input: &[u8] = &out;
        assert_eq!(unwire_tag(tag, index + 1, &mut input), Ok(index));
        assert_eq!(input, &[42u8][..]);
    }
}

#[test]
fn a_tag_past_the_variants_is_refused() {
    let mut input: &[u8] = &[0, 3, 1];
    assert_eq!(unwire_tag(TagType::U16, 3, &mut input), Err(WireError::InvalidData));
    assert_eq!(input, &[1u8][..]);
    let mut input: &[u8] = &[0, 2];
    assert_eq!(unwire_tag(TagType::U16, 3, &mut input), Ok(2));
}

#[test]
fn a_short_tag_is_unexpected_eof() {
    let mut input: &[u8] = &[0, 0, 1];
    assert_eq!(unwire_tag(TagType::U32, 3, &mut input), Err(WireError::UnexpectedEof));
    assert_eq!(input, &[0u8, 0, 1][..]);
}
