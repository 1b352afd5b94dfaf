use wiring::error::WireError;
use wiring::unwire::BufUnWire;
use wiring::unwire::UnsafeReader;
use wiring::unwire::Unwire;
use wiring::unwire::Unwiring;
use wiring::wire::sync_wire;
use wiring::wire::Wire;
use wiring::wire::Wiring;

fn bytes_of<T: Wiring>(value: &T) -> Vec<u8> {
    let mut out = Vec::new();
    value.sync_wiring(&mut out).unwrap();
    out
}

#[test]
fn integers_are_big_endian() {
    assert_eq!(bytes_of(&0x0102u16), vec![1u8, 2]);
    assert_eq!(bytes_of(&0x01020304u32), vec![1u8, 2, 3, 4]);
    assert_eq!(bytes_of(&1u64), vec![0u8, 0, 0, 0, 0, 0, 0, 1]);
    assert_eq!(bytes_of(&0xffu8), vec![0xffu8]);
    let mut big = vec![0u8; 15];
    big.push(9);
    assert_eq!(bytes_of(&9u128), big);
}

#[test]
fn signed_integers_are_twos_complement() {
    assert_eq!(bytes_of(&-1i16), vec![0xffu8, 0xff]);
    assert_eq!(bytes_of(&-2i8), vec![0xfeu8]);
    assert_eq!(bytes_of(&i32::MIN), vec![0x80u8, 0, 0, 0]);
    assert_eq!(bytes_of(&-256i64), vec![0xffu8, 0xff, 0xff, 0xff, 0xff, 0xff, 0xff, 0]);
}

#[test]
fn usize_travels_as_eight_bytes() {
    assert_eq!(bytes_of(&5usize), vec![0u8, 0, 0, 0, 0, 0, 0, 5]);
}

#[test]
fn char_travels_as_its_code_point() {
    assert_eq!(bytes_of(&'A'), vec![0u8, 0, 0, 0x41]);
    assert_eq!(bytes_of(&'é'), vec![0u8, 0, 0, 0xe9]);
}

#[test]
fn bool_and_unit_take_one_byte() {
    assert_eq!(bytes_of(&true), vec![1u8]);
    assert_eq!(bytes_of(&false), vec![0u8]);
    assert_eq!(bytes_of(&()), vec![0u8]);
}

#[test]
fn text_has_a_u64_length_prefix() {
    assert_eq!(bytes_of(&"Hi".to_string()), vec![0u8, 0, 0, 0, 0, 0, 0, 2, b'H', b'i']);
    assert_eq!(bytes_of(&"Hi"), vec![0u8, 0, 0, 0, 0, 0, 0, 2, b'H', b'i']);
    assert_eq!(bytes_of(&"é".to_string()), vec![0u8, 0, 0, 0, 0, 0, 0, 2, 0xc3, 0xa9]);
    assert_eq!(bytes_of(&String::new()), vec![0u8; 8]);
}

#[test]
fn sequences_have_a_count_prefix_and_arrays_do_not() {
    assert_eq!(bytes_of(&vec![1u8, 2]), vec![0u8, 0, 0, 0, 0, 0, 0, 2, 1, 2]);
    let items: &[u16] = &[3, 4];
    assert_eq!(bytes_of(&items), vec![0u8, 0, 0, 0, 0, 0, 0, 2, 0, 3, 0, 4]);
    assert_eq!(bytes_of(&[1u8, 2, 3]), vec![1u8, 2, 3]);
}

#[test]
fn option_has_a_tag_byte() {
    assert_eq!(bytes_of(&Some(7u8)), vec![1u8, 7]);
    assert_eq!(bytes_of(&None::<u8>), vec![0u8]);
}

#[test]
fn tuples_and_boxes_are_their_parts_in_order() {
    assert_eq!(bytes_of(&(1u8, 2u16)), vec![1u8, 0, 2]);
    assert_eq!(bytes_of(&(1u8, true, ())), vec![1u8, 1, 0]);
    assert_eq!(bytes_of(&Box::new(3u16)), vec![0u8, 3]);
    assert_eq!(bytes_of(&std::sync::Arc::new(4u8)), vec![4u8]);
}

#[test]
fn sync_wire_writes_the_value() {
    let mut out = Vec::new();
    sync_wire(&mut out, &0x0a0bu16).unwrap();
    sync_wire(&mut out, &Some(1u8)).unwrap();
    assert_eq!(out, vec![0x0au8, 0x0b, 1, 1]);
}

#[test]
fn wire_methods_of_a_byte_vector() {
    let mut out: Vec<u8> = Vec::new();
    out.sync_wire_all(&[1, 2]).unwrap();
    out.sync_wire_be(0x0304, 2).unwrap();
    out.sync_wire_u64(&5).unwrap();
    out.reserve_capacity(10);
    assert_eq!(out, vec![1u8, 2, 3, 4, 0, 0, 0, 0, 0, 0, 0, 5]);
}

#[test]
fn truncated_input_is_unexpected_eof() {
    let bytes = [0u8, 0, 1];
    assert_eq!(BufUnWire::new(&bytes).unwire::<u32>(), Err(WireError::UnexpectedEof));
    let text = [0u8, 0, 0, 0, 0, 0, 0, 5, b'a'];
    assert_eq!(BufUnWire::new(&text).unwire::<String>(), Err(WireError::UnexpectedEof));
    let seq = [0u8, 0, 0, 0, 0, 0, 0, 3, 1, 2];
    assert_eq!(BufUnWire::new(&seq).unwire::<Vec<u8>>(), Err(WireError::UnexpectedEof));
    assert_eq!(BufUnWire::new(&[]).unwire::<bool>(), Err(WireError::UnexpectedEof));
}

#[test]
fn a_failed_length_walk_reads_nothing() {
    let bytes = [1u8, 0, 0];
    let mut r = BufUnWire::new(&bytes);
    assert_eq!(r.unwire::<(u8, u32)>(), Err(WireError::UnexpectedEof));
    assert_eq!(r.unwire::<u8>(), Ok(1));
}

#[test]
fn bad_tags_are_invalid_data() {
    assert_eq!(BufUnWire::new(&[2u8, 7]).unwire::<Option<u8>>(), Err(WireError::InvalidData));
    assert_eq!(BufUnWire::new(&[1u8]).unwire::<()>(), Err(WireError::InvalidData));
    assert_eq!(BufUnWire::new(&[0u8]).unwire::<()>(), Ok(()));
}

#[test]
fn any_nonzero_byte_is_true() {
    assert_eq!(BufUnWire::new(&[7u8]).unwire::<bool>(), Ok(true));
    assert_eq!(BufUnWire::new(&[0u8]).unwire::<bool>(), Ok(false));
}

#[test]
fn invalid_utf8_is_invalid_data() {
    let bytes = [0u8, 0, 0, 0, 0, 0, 0, 2, 0xff, 0xfe];
    assert_eq!(BufUnWire::new(&bytes).unwire::<String>(), Err(WireError::InvalidData));
}

#[test]
fn option_none_reads_one_byte() {
    let bytes = [0u8, 9];
    let mut r = BufUnWire::new(&bytes);
    assert_eq!(r.unwire::<Option<u64>>(), Ok(None));
    assert_eq!(r.unwire::<u8>(), Ok(9));
}

#[test]
fn bytes_length_counts_whole_values() {
    let bytes = [0u8, 0, 0, 0, 0, 0, 0, 2, b'o', b'k', 0, 0, 0, 0, 0, 0, 0, 0];
    let mut reader = UnsafeReader::new(&bytes);
    assert_eq!(<String as Unwiring>::bytes_length(&mut reader, 2), Ok(18));

    let fixed = [0u8; 12];
    let mut reader = UnsafeReader::new(&fixed);
    assert_eq!(<u32 as Unwiring>::bytes_length(&mut reader, 3), Ok(12));
    let mut reader = UnsafeReader::new(&fixed);
    assert_eq!(<u32 as Unwiring>::bytes_length(&mut reader, 4), Err(WireError::UnexpectedEof));

    let opt = [1u8, 0, 5, 0];
    let mut reader = UnsafeReader::new(&opt);
    assert_eq!(<Option<u16> as Unwiring>::bytes_length(&mut reader, 2), Ok(4));
}

#[test]
fn unwiring_directly_from_a_reader() {
    let bytes = [0u8, 0, 0, 0, 0, 0, 0, 1, 0, 42];
    let mut reader = UnsafeReader::new(&bytes);
    let v = <Vec<u16> as Unwiring>::sync_unwiring(&mut reader).unwrap();
    assert_eq!(v, vec![42u16]);
    assert_eq!(reader.position(), 10);
}

#[test]
fn different_values_wire_to_different_bytes() {
    assert_ne!(bytes_of(&(1u8, "a".to_string())), bytes_of(&(1u8, "b".to_string())));
    assert_ne!(bytes_of(&Some(0u8)), bytes_of(&None::<u8>));
    assert_ne!(bytes_of(&vec![0u8]), bytes_of(&Vec::<u8>::new()));
}

#[test]
fn arrays_read_back_without_a_count() {
    let bytes = [0u8, 1, 0, 2, 0, 3, 9];
    let mut r = BufUnWire::new(&bytes);
    assert_eq!(r.unwire::<[u16; 3]>(), Ok([1u16, 2, 3]));
    assert_eq!(r.unwire::<u8>(), Ok(9));
    assert_eq!(BufUnWire::new(&bytes[..5]).unwire::<[u16; 3]>(), Err(WireError::UnexpectedEof));
    let arr = [Some(1u8), None];
    assert_eq!(bytes_of(&&arr), vec![1u8, 1, 0]);
    let mut reader = UnsafeReader::new(&bytes);
    assert_eq!(<[u16; 3] as Unwiring>::bytes_length(&mut reader, 1), Ok(6));
}

#[test]
fn boxed_slices_travel_as_sequences() {
    let b: Box<[u32]> = vec![7u32, 8].into_boxed_slice();
    let bytes = bytes_of(&b);
    assert_eq!(bytes, vec![0u8, 0, 0, 0, 0, 0, 0, 2, 0, 0, 0, 7, 0, 0, 0, 8]);
    let back = BufUnWire::new(&bytes).unwire::<Box<[u32]>>().unwrap();
    assert_eq!(&*back, &[7u32, 8][..]);
}

#[test]
fn default_unwire_methods_read_big_endian() {
    let bytes = [1u8, 0, 2, 0, 0, 0, 3, 0, 0, 0, 0, 0, 0, 0, 4];
    let mut slice: &[u8] = &bytes;
    assert_eq!(slice.sync_unwire_u8(), Ok(1));
    assert_eq!(slice.sync_unwire_u16(), Ok(2));
    assert_eq!(slice.sync_unwire_u32(), Ok(3));
    assert_eq!(slice.sync_unwire_u64(), Ok(4));
    assert!(slice.is_empty());
    assert_eq!(slice.sync_unwire_u8(), Err(WireError::UnexpectedEof));
}

#[test]
fn a_byte_slice_is_a_reader() {
    let bytes = [0u8, 0, 0, 0, 0, 0, 0, 2, b'o', b'k', 5];
    let mut slice: &[u8] = &bytes;
    assert_eq!(slice.sync_unwire_string(), Ok("ok".to_string()));
    assert_eq!(slice, &[5u8][..]);
    let mut slice: &[u8] = &bytes;
    assert_eq!(<String as Unwiring>::sync_unwiring(&mut slice), Ok("ok".to_string()));
    assert_eq!(slice.advance_position(2), Err(WireError::UnexpectedEof));
    assert_eq!(slice.advance_position(1), Ok(()));
    assert!(slice.is_empty());
    let mut slice: &[u8] = &bytes[..9];
    assert_eq!(slice.sync_unwire_string(), Err(WireError::UnexpectedEof));
    let mut slice: &[u8] = &bytes;
    assert_eq!(slice.sync_unwire_bytes(3), Ok(vec![0u8, 0, 0]));
    assert_eq!(slice.len(), 8);
}

#[test]
fn more_input_keeps_a_decided_result() {
    let short = [0u8, 1];
    let long = [0u8, 1, 0xff, 0xff];
    assert_eq!(BufUnWire::new(&short).unwire::<u16>(), Ok(1));
    assert_eq!(BufUnWire::new(&long).unwire::<u16>(), Ok(1));
    assert_eq!(BufUnWire::new(&[2u8]).unwire::<Option<u8>>(), Err(WireError::InvalidData));
    assert_eq!(BufUnWire::new(&[2u8, 1, 1]).unwire::<Option<u8>>(), Err(WireError::InvalidData));
    assert_eq!(BufUnWire::new(&[1u8]).unwire::<Option<u8>>(), Err(WireError::UnexpectedEof));
    assert_eq!(BufUnWire::new(&[1u8, 4]).unwire::<Option<u8>>(), Ok(Some(4)));
}

#[test]
fn a_failed_skip_leaves_the_slice_as_it_was() {
    let bytes = [1u8, 2, 3];
    let mut slice: &[u8] = &bytes;
    assert_eq!(slice.advance_position(4), Err(WireError::UnexpectedEof));
    assert_eq!(slice, &[1u8, 2, 3][..]);
    assert_eq!(slice.sync_unwire_u32(), Err(WireError::UnexpectedEof));
    assert_eq!(slice, &[1u8, 2, 3][..]);
    assert_eq!(slice.sync_unwire_bytes(5), Err(WireError::UnexpectedEof));
    assert_eq!(slice, &[1u8, 2, 3][..]);
}

#[test]
fn length_walk_over_several_values_leaves_what_follows() {
    let mut bytes = Vec::new();
    "ab".to_string().sync_wiring(&mut bytes).unwrap();
    "c".to_string().sync_wiring(&mut bytes).unwrap();
    let total = bytes.len();
    bytes.extend_from_slice(&[7u8, 7]);
    let mut slice: &[u8] = &bytes;
    assert_eq!(<String as Unwiring>::bytes_length(&mut slice, 2), Ok(total as u64));
    assert_eq!(slice, &[7u8, 7][..]);
    let mut short: &[u8] = &bytes[..total - 1];
    assert_eq!(<String as Unwiring>::bytes_length(&mut short, 2), Err(WireError::UnexpectedEof));
}

#[test]
fn skip_one_walks_a_single_value() {
    let bytes = [0u8, 0, 0, 0, 0, 0, 0, 2, 0, 1, 0, 2, 7];
    let mut reader = UnsafeReader::new(&bytes);
    assert_eq!(<Vec<u16> as Unwiring>::skip_one(&mut reader), Ok(12));
    assert_eq!(reader.position(), 12);
    let mut reader = UnsafeReader::new(&bytes[..11]);
    assert_eq!(<Vec<u16> as Unwiring>::skip_one(&mut reader), Err(WireError::UnexpectedEof));
    let pair = [3u8, 0, 9];
    let mut reader = UnsafeReader::new(&pair);
    assert_eq!(<(u8, u16) as Unwiring>::skip_one(&mut reader), Ok(3));
}

#[test]
fn a_decode_error_leaves_the_position_forward() {
    let bytes = [0u8, 0, 0, 0, 0, 0, 0, 2, 0xff, 0xfe, 5];
    let mut r = BufUnWire::new(&bytes);
    assert_eq!(r.unwire::<String>(), Err(WireError::InvalidData));
    assert!(r.unwire::<u8>().is_ok());
    let mut r = BufUnWire::new(&bytes[..9]);
    assert_eq!(r.unwire::<String>(), Err(WireError::UnexpectedEof));
    assert_eq!(r.unwire::<u64>(), Ok(2));
}
