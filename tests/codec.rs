use wasm_leb128::{ByteSource, Leb128, Leb128Error, ReadLeb128, WriteLeb128};

fn enc_u32(v: u32, byte_count: usize) -> Vec<u8> {
    let mut out: Vec<u8> = Vec::new();
    let n = out.write_leb128(&Leb128::new(v, byte_count));
    assert_eq!(n, out.len());
    out
}

fn enc_i32(v: i32, byte_count: usize) -> Vec<u8> {
    let mut out: Vec<u8> = Vec::new();
    let n = out.write_leb128(&Leb128::new(v, byte_count));
    assert_eq!(n, out.len());
    out
}

fn enc_i64(v: i64, byte_count: usize) -> Vec<u8> {
    let mut out: Vec<u8> = Vec::new();
    let n = out.write_leb128(&Leb128::new(v, byte_count));
    assert_eq!(n, out.len());
    out
}

fn dec_u32(bytes: &[u8]) -> Result<Leb128<u32>, Leb128Error> {
    let mut src = ByteSource::new(bytes.to_vec());
    src.read_leb128()
}

fn dec_i32(bytes: &[u8]) -> Result<Leb128<i32>, Leb128Error> {
    let mut src = ByteSource::new(bytes.to_vec());
    src.read_leb128()
}

fn dec_i64(bytes: &[u8]) -> Result<Leb128<i64>, Leb128Error> {
    let mut src = ByteSource::new(bytes.to_vec());
    src.read_leb128()
}

#[test]
fn unsigned_zero_is_one_zero_byte() {
    assert_eq!(enc_u32(0, 0), vec![0x00]);
    assert_eq!(dec_u32(&[0x00]), Ok(Leb128 { value: 0, byte_count: 1 }));
}

#[test]
fn unsigned_300_is_two_bytes() {
    assert_eq!(enc_u32(300, 0), vec![0xAC, 0x02]);
    assert_eq!(dec_u32(&[0xAC, 0x02]), Ok(Leb128 { value: 300, byte_count: 2 }));
}

#[test]
fn signed_64_minus_one_is_one_byte() {
    assert_eq!(enc_i64(-1, 0), vec![0x7F]);
    assert_eq!(dec_i64(&[0x7F]), Ok(Leb128 { value: -1, byte_count: 1 }));
}

#[test]
fn signed_32_minimum_round_trips_at_minimal_length() {
    let bytes = enc_i32(i32::MIN, 0);
    assert_eq!(bytes, vec![0x80, 0x80, 0x80, 0x80, 0x78]);
    assert_eq!(dec_i32(&bytes), Ok(Leb128 { value: i32::MIN, byte_count: 5 }));
}

#[test]
fn boundary_values_round_trip() {
    for v in [0u32, 1, 127, 128, u32::MAX] {
        let bytes = enc_u32(v, 0);
        assert_eq!(dec_u32(&bytes), Ok(Leb128 { value: v, byte_count: bytes.len() }));
    }
    for v in [0i32, -1, 63, 64, -64, -65, i32::MIN, i32::MAX] {
        let bytes = enc_i32(v, 0);
        assert_eq!(dec_i32(&bytes), Ok(Leb128 { value: v, byte_count: bytes.len() }));
    }
    for v in [0i64, -1, i64::MIN, i64::MAX, i32::MIN as i64 - 1] {
        let bytes = enc_i64(v, 0);
        assert_eq!(dec_i64(&bytes), Ok(Leb128 { value: v, byte_count: bytes.len() }));
    }
    assert_eq!(enc_u32(u32::MAX, 0), vec![0xFF, 0xFF, 0xFF, 0xFF, 0x0F]);
    assert_eq!(enc_i64(i64::MAX, 0).len(), 10);
    assert_eq!(enc_i64(i64::MIN, 0).len(), 10);
}

#[test]
fn padded_patch_of_unsigned_two() {
    let bytes = enc_u32(2, 3);
    assert_eq!(bytes, vec![0x82, 0x80, 0x00]);
    assert_eq!(dec_u32(&bytes), Ok(Leb128 { value: 2, byte_count: 3 }));
}

#[test]
fn source_ending_after_continuation_is_exhausted() {
    let mut src = ByteSource::new(vec![0x80]);
    let r: Result<Leb128<u32>, Leb128Error> = src.read_leb128();
    assert_eq!(r, Err(Leb128Error::SourceExhausted));
    assert_eq!(src.pos, 1);
    let mut empty = ByteSource::new(Vec::new());
    let r: Result<Leb128<i64>, Leb128Error> = empty.read_leb128();
    assert_eq!(r, Err(Leb128Error::SourceExhausted));
    assert_eq!(empty.pos, 0);
}

#[test]
fn shortest_encodings() {
    assert_eq!(enc_u32(127, 1), vec![0x7F]);
    assert_eq!(enc_u32(128, 1), vec![0x80, 0x01]);
    assert_eq!(enc_i32(63, 0), vec![0x3F]);
    assert_eq!(enc_i32(64, 1), vec![0xC0, 0x00]);
    assert_eq!(enc_i32(-64, 0), vec![0x40]);
    assert_eq!(enc_i32(-65, 1), vec![0xBF, 0x7F]);
    assert_eq!(enc_i64(-128, 0), vec![0x80, 0x7F]);
    assert_eq!(enc_u32(624485, 0), vec![0xE5, 0x8E, 0x26]);
    assert_eq!(enc_i64(-123456, 0), vec![0xC0, 0xBB, 0x78]);
}

#[test]
fn padding_only_adds_filler_groups() {
    assert_eq!(enc_i32(-1, 1), vec![0x7F]);
    assert_eq!(enc_i32(-1, 3), vec![0xFF, 0xFF, 0x7F]);
    assert_eq!(enc_i32(5, 4), vec![0x85, 0x80, 0x80, 0x00]);
    assert_eq!(enc_i64(-65, 4), vec![0xBF, 0xFF, 0xFF, 0x7F]);
    assert_eq!(dec_i32(&[0xFF, 0xFF, 0x7F]), Ok(Leb128 { value: -1, byte_count: 3 }));
    assert_eq!(dec_i64(&[0xBF, 0xFF, 0xFF, 0x7F]), Ok(Leb128 { value: -65, byte_count: 4 }));
    assert_eq!(enc_u32(300, 1), vec![0xAC, 0x02]);
}

#[test]
fn padding_beyond_the_widest_encoding_round_trips() {
    let bytes = enc_u32(2, 7);
    assert_eq!(bytes, vec![0x82, 0x80, 0x80, 0x80, 0x80, 0x80, 0x00]);
    assert_eq!(dec_u32(&bytes), Ok(Leb128 { value: 2, byte_count: 7 }));
    let bytes = enc_i64(i64::MIN, 12);
    assert_eq!(bytes.len(), 12);
    assert_eq!(dec_i64(&bytes), Ok(Leb128 { value: i64::MIN, byte_count: 12 }));
    let bytes = enc_i32(-7, 9);
    assert_eq!(dec_i32(&bytes), Ok(Leb128 { value: -7, byte_count: 9 }));
}

#[test]
fn unsigned_overflow_is_detected() {
    let overflow = Err(Leb128Error::WidthOverflow { bits: 32, signed: false });
    assert_eq!(dec_u32(&[0xFF, 0xFF, 0xFF, 0xFF, 0x1F]), overflow);
    assert_eq!(dec_u32(&[0x80, 0x80, 0x80, 0x80, 0x80, 0x01]), overflow);
    let mut src = ByteSource::new(vec![0xFF, 0xFF, 0xFF, 0xFF, 0x7F, 0x00, 0x05]);
    let r: Result<Leb128<u32>, Leb128Error> = src.read_leb128();
    assert_eq!(r, overflow);
    assert_eq!(src.pos, 5);
}

#[test]
fn signed_overflow_is_detected() {
    let overflow32 = Err(Leb128Error::WidthOverflow { bits: 32, signed: true });
    assert_eq!(dec_i32(&[0xFF, 0xFF, 0xFF, 0xFF, 0x0F]), overflow32);
    assert_eq!(dec_i32(&[0x80, 0x80, 0x80, 0x80, 0x70]), overflow32);
    assert_eq!(dec_i32(&[0xFF, 0xFF, 0xFF, 0xFF, 0xFF, 0x00]), overflow32);
    let overflow64 = Err(Leb128Error::WidthOverflow { bits: 64, signed: true });
    assert_eq!(
        dec_i64(&[0xFF, 0xFF, 0xFF, 0xFF, 0xFF, 0xFF, 0xFF, 0xFF, 0xFF, 0x01]),
        overflow64
    );
    assert_eq!(
        dec_i64(&[0x80, 0x80, 0x80, 0x80, 0x80, 0x80, 0x80, 0x80, 0x80, 0x7E]),
        overflow64
    );
}

#[test]
fn consecutive_reads_advance_the_source() {
    let mut bytes = Vec::new();
    bytes.write_leb128(&Leb128::new(300u32, 0));
    bytes.write_leb128(&Leb128::new(-2i32, 2));
    bytes.write_leb128(&Leb128::new(1i64 << 40, 0));
    let mut src = ByteSource::new(bytes);
    let a: Result<Leb128<u32>, Leb128Error> = src.read_leb128();
    let b: Result<Leb128<i32>, Leb128Error> = src.read_leb128();
    let c: Result<Leb128<i64>, Leb128Error> = src.read_leb128();
    assert_eq!(a, Ok(Leb128 { value: 300, byte_count: 2 }));
    assert_eq!(b, Ok(Leb128 { value: -2, byte_count: 2 }));
    assert_eq!(c, Ok(Leb128 { value: 1i64 << 40, byte_count: 6 }));
    assert_eq!(src.pos, src.bytes.len());
}

#[test]
fn map_keeps_the_byte_count() {
    let old = Leb128::new(2u32, 2);
    let new = old.map(-300i64);
    assert_eq!(new, Leb128 { value: -300i64, byte_count: 2 });
    assert_eq!(*new, -300);
    assert_eq!(*old.get(), 2);
    let mut out = Vec::new();
    out.write_leb128(&old.map(5u32));
    assert_eq!(out, vec![0x85, 0x00]);
}

#[test]
fn reading_stops_at_the_first_final_byte() {
    let mut src = ByteSource::new(vec![0x01, 0x02]);
    let r: Result<Leb128<i64>, Leb128Error> = src.read_leb128();
    assert_eq!(r, Ok(Leb128 { value: 1, byte_count: 1 }));
    assert_eq!(src.pos, 1);
}

#[test]
fn reencoding_a_read_value_gives_back_its_bytes() {
    let originals: [&[u8]; 3] = [&[0x82, 0x80, 0x00], &[0xAC, 0x02], &[0x85, 0x80, 0x80, 0x00]];
    for bytes in originals {
        let read = dec_u32(bytes).unwrap();
        assert_eq!(enc_u32(*read, read.byte_count), bytes.to_vec());
    }
    let signed: [&[u8]; 3] = [&[0xFF, 0xFF, 0x7F], &[0xBF, 0x7F], &[0x80, 0x80, 0x80, 0x80, 0x78]];
    for bytes in signed {
        let read = dec_i32(bytes).unwrap();
        assert_eq!(enc_i32(*read, read.byte_count), bytes.to_vec());
        let wide = dec_i64(bytes).unwrap();
        assert_eq!(enc_i64(*wide, wide.byte_count), bytes.to_vec());
    }
}
