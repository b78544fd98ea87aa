use lsb_stego::codec::embed;
use lsb_stego::codec::embed_checked;
use lsb_stego::codec::EmbedError;

fn buffer_of(byte: u8, len: usize) -> Vec<u8> {
    vec![byte; len]
}

#[test]
fn round_trip_hi() {
    let mut buffer = buffer_of(0xFE, 24);
    let payload: Vec<u8> = vec![0x48, 0x69];
    embed(&mut buffer, &payload);
    let r = lsb_stego::codec::extract(&buffer);
    assert_eq!(r.payload, payload);
    assert!(r.sentinel_found);
}

#[test]
fn concrete_bits_hi() {
    // "Hi" = [0x48, 0x69]; LSB-first bits: 0,0,0,1,0,0,1,0 then 1,0,0,1,0,1,1,0
    let bits: [u8; 16] = [0, 0, 0, 1, 0, 0, 1, 0, 1, 0, 0, 1, 0, 1, 1, 0];
    let mut buffer = buffer_of(0xFE, 20);
    let payload: Vec<u8> = vec![0x48, 0x69];
    embed(&mut buffer, &payload);
    for (n, bit) in bits.iter().enumerate() {
        assert_eq!(buffer[n], 0xFE | bit);
    }
    for n in 16..20 {
        assert_eq!(buffer[n], 0xFF);
    }
    let r = lsb_stego::codec::extract(&buffer);
    assert_eq!(r.payload, payload);
    // 20 bytes leave room for only 4 sentinel bits after the payload
    assert!(!r.sentinel_found);
}

#[test]
fn empty_payload_forces_sentinel_everywhere() {
    let mut buffer = buffer_of(0xAA, 12);
    let payload: Vec<u8> = Vec::new();
    embed(&mut buffer, &payload);
    for &b in &buffer {
        assert_eq!(b & 1, 1);
        assert_eq!(b >> 1, 0xAA >> 1);
    }
    let r = lsb_stego::codec::extract(&buffer);
    assert!(r.payload.is_empty());
    assert!(r.sentinel_found);
}

#[test]
fn immediate_sentinel_yields_empty_payload() {
    let buffer = buffer_of(0x01, 8);
    let r = lsb_stego::codec::extract(&buffer);
    assert!(r.payload.is_empty());
    assert!(r.sentinel_found);
}

#[test]
fn truncation_cuts_at_byte_boundary() {
    // 10 buffer bytes have room for one full payload byte only
    let mut buffer = buffer_of(0xFE, 10);
    let payload: Vec<u8> = vec![0x48, 0x69];
    embed(&mut buffer, &payload);
    let r = lsb_stego::codec::extract(&buffer);
    assert_eq!(r.payload, vec![0x48]);
    assert!(!r.sentinel_found);
}

#[test]
fn exact_multiple_without_sentinel_drops_last_byte() {
    // 16 buffer bytes hold exactly the 16 payload bits and nothing more: the
    // second payload byte completes at the buffer's last byte and is never
    // flushed, because no further byte is scanned after its eighth bit
    let mut buffer = buffer_of(0xFE, 16);
    let payload: Vec<u8> = vec![0x48, 0x69];
    embed(&mut buffer, &payload);
    let r = lsb_stego::codec::extract(&buffer);
    assert_eq!(r.payload, vec![0x48]);
    assert!(!r.sentinel_found);
}

#[test]
fn one_byte_payload_in_eight_bytes_yields_nothing() {
    // the single payload byte completes at the buffer's end; with no ninth
    // byte to scan it is never flushed
    let mut buffer = buffer_of(0xFE, 8);
    let payload: Vec<u8> = vec![0x00];
    embed(&mut buffer, &payload);
    let r = lsb_stego::codec::extract(&buffer);
    assert!(r.payload.is_empty());
    assert!(!r.sentinel_found);
}

#[test]
fn eight_clear_bytes_yield_nothing() {
    let buffer = buffer_of(0xFE, 8);
    let r = lsb_stego::codec::extract(&buffer);
    assert!(r.payload.is_empty());
    assert!(!r.sentinel_found);
}

#[test]
fn no_sentinel_reports_not_found() {
    // all LSBs clear: nothing terminates the scan
    let buffer = buffer_of(0xFE, 20);
    let r = lsb_stego::codec::extract(&buffer);
    assert_eq!(r.payload, vec![0x00, 0x00]);
    assert!(!r.sentinel_found);
}

#[test]
fn payload_of_all_ones_terminates_early() {
    // a payload whose own bit stream holds eight set bits in a row is
    // mistaken for the sentinel and never comes back
    let mut buffer = buffer_of(0xFE, 24);
    let payload: Vec<u8> = vec![0xFF];
    embed(&mut buffer, &payload);
    let r = lsb_stego::codec::extract(&buffer);
    assert!(r.payload.is_empty());
    assert!(r.sentinel_found);
}

#[test]
fn upper_bits_preserved() {
    let original: Vec<u8> = (0u8..=255u8).collect();
    let mut buffer = original.clone();
    let payload: Vec<u8> = vec![0x5A, 0xC3, 0x01];
    embed(&mut buffer, &payload);
    assert_eq!(buffer.len(), original.len());
    for n in 0..buffer.len() {
        assert_eq!(buffer[n] >> 1, original[n] >> 1);
    }
}

#[test]
fn extract_is_pure() {
    let mut buffer = buffer_of(0xFE, 32);
    let payload: Vec<u8> = vec![0x42, 0x24];
    embed(&mut buffer, &payload);
    let first = lsb_stego::codec::extract(&buffer);
    let second = lsb_stego::codec::extract(&buffer);
    assert_eq!(first.payload, second.payload);
    assert_eq!(first.sentinel_found, second.sentinel_found);
}

#[test]
fn embed_checked_accepts_exact_fit() {
    let mut buffer = buffer_of(0xFE, 24);
    let payload: Vec<u8> = vec![0x48, 0x69];
    let r = embed_checked(&mut buffer, &payload);
    assert!(r.is_ok());
    let e = lsb_stego::codec::extract(&buffer);
    assert_eq!(e.payload, payload);
    assert!(e.sentinel_found);
}

#[test]
fn embed_checked_refuses_short_buffer() {
    let mut buffer = buffer_of(0xFE, 23);
    let original = buffer.clone();
    let payload: Vec<u8> = vec![0x48, 0x69];
    let r = embed_checked(&mut buffer, &payload);
    assert_eq!(r, Err(EmbedError::CapacityExceeded));
    assert_eq!(buffer, original);
}
