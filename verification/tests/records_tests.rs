use react::records::{i32_from_le_bytes, i64_from_le_bytes, CData, Content};

fn value_record(type_: i32, val: f32, timestamp: i64) -> Vec<u8> {
    let mut bytes = Vec::new();
    bytes.extend_from_slice(&type_.to_le_bytes());
    bytes.extend_from_slice(&val.to_le_bytes());
    bytes.extend_from_slice(&timestamp.to_le_bytes());
    bytes
}

#[test]
fn signed_numbers() {
    assert_eq!(i32_from_le_bytes(&[1, 0, 0, 0]), 1);
    assert_eq!(i32_from_le_bytes(&[0, 1, 0, 0]), 256);
    assert_eq!(i32_from_le_bytes(&[0xff, 0xff, 0xff, 0xff]), -1);
    assert_eq!(i32_from_le_bytes(&[0, 0, 0, 0x80]), i32::MIN);
    assert_eq!(i64_from_le_bytes(&[0xfe, 0xff, 0xff, 0xff, 0xff, 0xff, 0xff, 0xff]), -2);
    assert_eq!(i64_from_le_bytes(&[0, 0, 0, 0, 1, 0, 0, 0]), 1 << 32);
}

#[test]
fn records_of_one_value() {
    // the byte that tells the kind is the low byte of the first field
    let mut bytes = value_record(256, 1.5, -2);
    bytes.resize(24, 0xaa);
    bytes.extend_from_slice(&value_record(i32::MIN, -0.0, 77));
    let mut output = vec![CData { type_: 9, content: Content::MessageStruct { type_: 1, message: ['x'; 21] } }];
    assert_eq!(CData::from_file(&bytes, 2, &mut output), Ok(()));
    assert_eq!(output.len(), 3);
    assert_eq!(
        output[1],
        CData {
            type_: 0,
            content: Content::ValueStruct { type_: 256, val: 1.5f32.to_bits(), timestamp: -2 }
        }
    );
    assert_eq!(
        output[2],
        CData {
            type_: 0,
            content: Content::ValueStruct { type_: i32::MIN, val: 0x8000_0000, timestamp: 77 }
        }
    );
}

#[test]
fn third_record_lies_further_on() {
    let mut bytes = vec![0u8; 72];
    bytes.extend_from_slice(&value_record(5, 2.0, 6));
    let mut output = Vec::new();
    assert_eq!(CData::from_file(&bytes, 3, &mut output), Ok(()));
    assert_eq!(
        output[2],
        CData { type_: 0, content: Content::ValueStruct { type_: 5, val: 2.0f32.to_bits(), timestamp: 6 } }
    );
}

#[test]
fn no_records() {
    let mut output = Vec::new();
    assert_eq!(CData::from_file(&[], 0, &mut output), Ok(()));
    assert!(output.is_empty());
}

#[test]
fn unknown_kind() {
    let mut bytes = value_record(0, 1.0, 1);
    bytes.resize(24, 0);
    bytes.extend_from_slice(&[7, 0, 0, 0]);
    let mut output = Vec::new();
    assert_eq!(CData::from_file(&bytes, 5, &mut output), Err(7));
    assert_eq!(output.len(), 1);
}

#[test]
fn readable_tells_what_from_file_takes() {
    let mut bytes = value_record(0, 1.0, 1);
    assert!(CData::readable(&bytes, 0));
    assert!(CData::readable(&bytes, 1));
    // the second record would start at byte 24
    assert!(!CData::readable(&bytes, 2));
    bytes.resize(24, 0);
    bytes.extend_from_slice(&[7, 0, 0, 0]);
    // a record of a kind that is not known ends the reading
    assert!(CData::readable(&bytes, 5));
    bytes[24] = 1;
    assert!(!CData::readable(&bytes, 2));
    bytes[24] = 2;
    assert!(!CData::readable(&bytes, 2));
    bytes[24] = 0;
    assert!(!CData::readable(&bytes, 2));
    bytes.resize(40, 0);
    assert!(CData::readable(&bytes, 2));
    assert!(!CData::readable(&bytes, usize::MAX));
    assert!(!CData::readable(&[], 1));
    assert!(CData::readable(&[], 0));
}
