use crypto_labs::lfsr::{apply_keystream, Cipher, LFSR};

#[test]
fn lfsr_default_state() {
    let l = LFSR::default();
    assert_eq!(l.register, 0x3FFF_FFFF);
    assert_eq!(l.mask, 0x2000_C001);
    assert_eq!(l.size, 30);
}

#[test]
fn lfsr_first_step() {
    let mut l = LFSR::default();
    assert_eq!(l.next(), 1);
    assert_eq!(l.register, 0x3FFF_FFFE);
}

#[test]
fn lfsr_key_bytes() {
    let mut l = LFSR::default();
    let bytes: Vec<u8> = (0..4).map(|_| l.next_byte()).collect();
    assert_eq!(bytes, vec![255, 255, 255, 253]);
    assert_eq!(l.register, 0x1554_0001);
}

#[test]
fn lfsr_stream_cipher_round_trip() {
    let mut l = LFSR::default();
    let (out, key) = apply_keystream(&mut l, b"Hi!");
    assert_eq!(out, vec![183, 150, 222]);
    assert_eq!(key, vec![255, 255, 255]);
    let mut again = LFSR::default();
    let (back, _) = apply_keystream(&mut again, &out);
    assert_eq!(back, b"Hi!".to_vec());
}

#[test]
fn lfsr_clone_keeps_state() {
    let mut l = LFSR { register: 0b1011, mask: 0b1001, size: 4 };
    let c = l.clone();
    l.next();
    assert_eq!(c.register, 0b1011);
    assert_eq!(c.size, 4);
}
