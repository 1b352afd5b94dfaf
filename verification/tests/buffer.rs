use wiring::error::WireError;
use wiring::unwire::BufUnWire;
use wiring::unwire::UnsafeReader;
use wiring::wire::sync_wire;
use wiring::wire::BufWire;

// A tuple struct of a `String` and a `u128` travels as its fields in order, as the
// pair does.
#[test]
fn unamed_test() {
    let mut wire = Vec::new();
    let data = ("Hello".to_string(), 128u128);
    sync_wire(&mut wire, &data).unwrap();
    let b = &wire[..];
    let mut unwire = BufUnWire::new(b);

    let d = unwire.unwire::<(String, u128)>().unwrap();
    assert_eq!(data, d);
}

// A struct of a `u8` and a `u64` travels as the pair `(u8, u64)`.
#[test]
fn unaligned_read() {
    let a: (u8, u64) = (1, 2);
    let mut buf = Vec::new();
    BufWire::new(&mut buf).wire(&a).unwrap();
    let b = BufUnWire::new(buf.as_slice()).unwire::<(u8, u64)>().unwrap();

    assert_eq!(a, b);
}

// A struct whose one field is a vector of such structs travels as that vector.
#[test]
fn incorrect_size_estimation() {
    let a: Vec<(u8, u64)> = vec![(1, 2), (3, 4)];
    let mut buf = Vec::new();
    BufWire::new(&mut buf).wire(&a).unwrap();
    let b = BufUnWire::new(buf.as_slice()).unwire::<Vec<(u8, u64)>>().unwrap();

    assert_eq!(a, b);
}

#[test]
fn buf_wire_starts_from_an_empty_buffer() {
    let mut buf = vec![9u8, 9, 9];
    BufWire::new(&mut buf).wire(&7u8).unwrap();
    assert_eq!(buf, vec![7u8]);
}

#[test]
fn buf_wire_appends_values_in_order() {
    let mut buf = Vec::new();
    {
        let mut w = BufWire::new(&mut buf);
        w.wire(&1u8).unwrap();
        w.wire(&0x0203u16).unwrap();
    }
    assert_eq!(buf, vec![1u8, 2, 3]);
}

#[test]
fn consecutive_values_come_back_in_order() {
    let mut buf = Vec::new();
    {
        let mut w = BufWire::new(&mut buf);
        w.wire(&"ab".to_string()).unwrap();
        w.wire(&vec![5u32, 6]).unwrap();
        w.wire(&Some(true)).unwrap();
    }
    let mut r = BufUnWire::new(buf.as_slice());
    assert_eq!(r.unwire::<String>().unwrap(), "ab".to_string());
    assert_eq!(r.unwire::<Vec<u32>>().unwrap(), vec![5u32, 6]);
    assert_eq!(r.unwire::<Option<bool>>().unwrap(), Some(true));
    assert_eq!(r.unwire::<u8>(), Err(WireError::UnexpectedEof));
}

#[test]
fn roundtrip_of_nested_values() {
    let value: (Vec<Option<String>>, (i64, bool), Box<u16>) = (
        vec![Some("x".to_string()), None, Some(String::new())],
        (-5, false),
        Box::new(0xbeef),
    );
    let mut buf = Vec::new();
    BufWire::new(&mut buf).wire(&value).unwrap();
    let back = BufUnWire::new(buf.as_slice())
        .unwire::<(Vec<Option<String>>, (i64, bool), Box<u16>)>()
        .unwrap();
    assert_eq!(back, value);
}

#[test]
fn roundtrip_of_signed_extremes() {
    let mut buf = Vec::new();
    {
        let mut w = BufWire::new(&mut buf);
        w.wire(&i8::MIN).unwrap();
        w.wire(&-1i16).unwrap();
        w.wire(&i32::MAX).unwrap();
        w.wire(&i64::MIN).unwrap();
        w.wire(&i128::MIN).unwrap();
    }
    assert_eq!(buf.len(), 1 + 2 + 4 + 8 + 16);
    let mut r = BufUnWire::new(buf.as_slice());
    assert_eq!(r.unwire::<i8>().unwrap(), i8::MIN);
    assert_eq!(r.unwire::<i16>().unwrap(), -1);
    assert_eq!(r.unwire::<i32>().unwrap(), i32::MAX);
    assert_eq!(r.unwire::<i64>().unwrap(), i64::MIN);
    assert_eq!(r.unwire::<i128>().unwrap(), i128::MIN);
}

#[test]
fn roundtrip_of_arc() {
    let value = std::sync::Arc::new(vec![1u64, 2, 3]);
    let mut buf = Vec::new();
    BufWire::new(&mut buf).wire(&value).unwrap();
    let back = BufUnWire::new(buf.as_slice()).unwire::<std::sync::Arc<Vec<u64>>>().unwrap();
    assert_eq!(*back, vec![1u64, 2, 3]);
}

#[test]
fn reader_sync_unwire_moves_the_position() {
    let bytes = [0u8, 5, 1, 0, 0, 0, 0, 0, 0, 0, 0];
    let mut reader = UnsafeReader::new(&bytes);
    assert_eq!(reader.sync_unwire::<u16>().unwrap(), 5);
    assert_eq!(reader.position(), 2);
    assert_eq!(reader.sync_unwire::<bool>().unwrap(), true);
    assert_eq!(reader.position(), 3);
    assert_eq!(reader.sync_unwire::<u64>().unwrap(), 0);
    assert_eq!(reader.position(), 11);
}

#[test]
fn reader_unchecked_reads() {
    let bytes = [1u8, 2, 0, 0, 0, 0, 3, 0, 0, 0, 0, 0, 0, 0, 4, 7, 8, 9];
    let mut reader = UnsafeReader::new(&bytes);
    assert_eq!(reader.unwire_u8(), 1);
    assert_eq!(reader.unwire_u16(), 0x0200);
    assert_eq!(reader.position(), 3);
    assert_eq!(reader.unwire_u32(), 3);
    assert_eq!(reader.unwire_u64(), 4);
    assert_eq!(reader.unwire_slice(3), &[7u8, 8, 9][..]);
    assert_eq!(reader.position(), 18);
    assert_eq!(reader.as_ptr(), &bytes[..]);
}

#[test]
fn buf_wire_leaves_the_exact_bytes_in_the_callers_vector() {
    let mut buf = vec![9u8; 3];
    let a: Vec<(u8, u64)> = vec![(1, 2), (3, 4)];
    assert_eq!(BufWire::new(&mut buf).wire(&a), Ok(()));
    assert_eq!(
        buf,
        vec![0u8, 0, 0, 0, 0, 0, 0, 2, 1, 0, 0, 0, 0, 0, 0, 0, 2, 3, 0, 0, 0, 0, 0, 0, 0, 4]
    );
}
