use bitpack::buffer::BitBuffer;
use bitpack::compressed::Compressed;
use bitpack::error::DecompressError;

#[test]
fn append_bits_then_read_bits_round_trip() {
    let mut buf = BitBuffer::new();
    buf.append_bits(0b101, 3);
    buf.append_bits(300, 9);
    assert_eq!(buf.remaining_len(), 12);
    assert_eq!(buf.read_bits(3), Ok(0b101));
    assert_eq!(buf.read_bits(9), Ok(300));
    assert_eq!(buf.remaining_len(), 0);
}

#[test]
fn append_writes_low_order_bits_most_significant_first() {
    let mut buf = BitBuffer::new();
    // Only the 4 low-order bits of the value are written.
    buf.append_bits(0xff5, 4);
    assert_eq!(buf.read_bits(1), Ok(0));
    assert_eq!(buf.read_bits(1), Ok(1));
    assert_eq!(buf.read_bits(1), Ok(0));
    assert_eq!(buf.read_bits(1), Ok(1));
}

#[test]
fn reading_past_the_end_fails_and_consumes_nothing() {
    let mut buf = BitBuffer::new();
    buf.append_bits(5, 3);
    assert_eq!(buf.read_bits(4), Err(DecompressError::InsufficientBits));
    assert_eq!(buf.remaining_len(), 3);
    assert_eq!(buf.read_bits(3), Ok(5));
}

#[test]
fn single_bit_appends() {
    let mut buf = BitBuffer::new();
    buf.append(true);
    buf.append(false);
    buf.append(true);
    assert_eq!(buf.read_bits(3), Ok(0b101));
}

#[test]
fn combine_keeps_order() {
    let mut a = BitBuffer::new();
    a.append_bits(0b10, 2);
    let mut b = BitBuffer::new();
    b.append_bits(0b11, 2);
    let joined = Compressed::Binaries(a.into_bits()).combine(Compressed::Binaries(b.into_bits()));
    match &joined {
        Compressed::Binaries(bits) => assert_eq!(bits.len(), 4),
        _ => panic!("combine keeps the intermediate form"),
    }
    let mut buf = joined.to_binaries();
    assert_eq!(buf.read_bits(4), Ok(0b1011));
}

#[test]
fn finalization_pads_with_zero_bits() {
    let mut a = BitBuffer::new();
    a.append_bits(0b1, 1);
    let c = Compressed::Binaries(a.into_bits());
    assert_eq!(c.to_bytes(), vec![0b1000_0000]);
    let empty = Compressed::Binaries(Vec::new());
    assert_eq!(empty.to_bytes(), Vec::<u8>::new());
}

#[test]
fn bytes_round_trip_through_bits() {
    let c = Compressed::Bytes(vec![0xb2, 0xc0]);
    let mut buf = c.to_binaries();
    assert_eq!(buf.remaining_len(), 16);
    assert_eq!(buf.read_bits(8), Ok(0xb2));
    assert_eq!(buf.read_bits(8), Ok(0xc0));
    // Finalizing an already byte-aligned value changes nothing.
    assert_eq!(c.to_bytes(), vec![0xb2, 0xc0]);
}
