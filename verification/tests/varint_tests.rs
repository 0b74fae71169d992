use peridot_archive::varint::VariableUInt;
use peridot_archive::ParError;

fn round_trip(v: u64) {
    let mut buf: Vec<u8> = Vec::new();
    VariableUInt(v).write(&mut buf);
    let (VariableUInt(back), used) = VariableUInt::read(buf.as_slice(), 0).unwrap();
    assert_eq!(back, v);
    assert_eq!(used, buf.len());
}

#[test]
fn varint_zero_is_single_zero_byte() {
    let mut buf: Vec<u8> = Vec::new();
    VariableUInt(0).write(&mut buf);
    assert_eq!(buf, vec![0u8]);
}

#[test]
fn varint_edge_values_round_trip() {
    round_trip(0);
    round_trip(127);
    round_trip(128);
    round_trip(16383);
    round_trip(16384);
    round_trip(4294967295);
}

#[test]
fn varint_max_u64_round_trips() {
    round_trip(u64::MAX);
}

#[test]
fn varint_one_byte_encodings() {
    let mut buf: Vec<u8> = Vec::new();
    VariableUInt(127).write(&mut buf);
    assert_eq!(buf, vec![0x7f]);
    let mut buf2: Vec<u8> = Vec::new();
    VariableUInt(128).write(&mut buf2);
    assert_eq!(buf2, vec![0x80, 0x01]);
    let mut buf3: Vec<u8> = Vec::new();
    VariableUInt(300).write(&mut buf3);
    assert_eq!(buf3, vec![0xac, 0x02]);
}

#[test]
fn varint_truncated_stream_fails() {
    // A continuation bit with nothing after it.
    let bytes = [0x80u8];
    assert_eq!(
        VariableUInt::read(&bytes, 0),
        Err(ParError::Truncated)
    );
    let empty: [u8; 0] = [];
    assert_eq!(VariableUInt::read(&empty, 0), Err(ParError::Truncated));
}

#[test]
fn varint_reads_at_offset() {
    let bytes = [0xffu8, 0x81, 0x01];
    let (VariableUInt(v), used) = VariableUInt::read(&bytes, 1).unwrap();
    assert_eq!(v, 129);
    assert_eq!(used, 3);
}

#[test]
fn varint_value_too_wide_is_corrupt() {
    // Eleven continuation groups overflow a 64-bit value.
    let bytes = [0xffu8, 0xff, 0xff, 0xff, 0xff, 0xff, 0xff, 0xff, 0xff, 0xff, 0x01];
    assert_eq!(VariableUInt::read(&bytes, 0), Err(ParError::Corrupt));
}
