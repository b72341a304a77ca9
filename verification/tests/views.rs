use crypto_labs::decimation::parse_key_number;
use crypto_labs::rsa_app::RsaApp;
use crypto_labs::stream_app::seed_register;
use crypto_labs::display::{format_binary_view, format_cipher_blocks_decimal};
use crypto_labs::paging::ChunkView;

#[test]
fn binary_view_of_bytes() {
    assert_eq!(format_binary_view(&[]), "(пусто)");
    assert_eq!(format_binary_view(&[5]), "00000101 ");
    assert_eq!(
        format_binary_view(&[0, 1, 2, 3, 255]),
        "00000000 00000001 00000010 00000011 \n11111111 "
    );
    assert_eq!(format_binary_view(&[1, 2, 3, 4]), "00000001 00000010 00000011 00000100 ");
}

#[test]
fn decimal_view_of_blocks() {
    assert_eq!(format_cipher_blocks_decimal(&[]), "(пусто)");
    assert_eq!(format_cipher_blocks_decimal(&[7, 60490, 0]), "7 60490 0");
    let blocks: Vec<u16> = (1..=13).collect();
    assert_eq!(format_cipher_blocks_decimal(&blocks), "1 2 3 4 5 6 7 8 9 10 11 12\n13");
}

#[test]
fn chunk_view_moves_inside_data() {
    let mut v = ChunkView { current_offset: 0, chunk_size: 256 };
    assert!(v.can_display_chunk(10, 1000));
    assert!(!v.can_display_chunk(1000, 1000));
    assert!(!v.can_display_chunk(0, 0));
    assert!(v.update_offset(512, 1000));
    assert_eq!(v.current_offset, 512);
    // past the end: the last chunk
    assert!(v.update_offset(2000, 1000));
    assert_eq!(v.current_offset, 744);
    assert!(!v.update_offset(2000, 1000));
    assert!(!v.update_offset(5, 0));
    assert_eq!(v.current_offset, 744);
}

#[test]
fn chunk_view_clamps() {
    let mut v = ChunkView { current_offset: 900, chunk_size: 256 };
    v.clamp_offset(1000);
    assert_eq!(v.current_offset, 744);
    v.clamp_offset(100);
    assert_eq!(v.current_offset, 0);
    v.current_offset = 5;
    v.clamp_offset(0);
    assert_eq!(v.current_offset, 0);
}

#[test]
fn chunk_view_steps() {
    let v = ChunkView { current_offset: 300, chunk_size: 256 };
    assert_eq!(v.previous_offset(), 44);
    assert_eq!(v.last_offset(1000), 744);
    assert_eq!(v.next_offset(1000), 556);
    assert_eq!(v.next_offset(600), 344);
    assert_eq!(v.next_offset(100), 0);
    assert_eq!(v.visible_len(1000), 256);
    assert_eq!(v.visible_len(400), 100);
    assert_eq!(v.visible_len(200), 0);
    let w = ChunkView { current_offset: 100, chunk_size: 256 };
    assert_eq!(w.previous_offset(), 0);
    assert_eq!(w.last_offset(100), 0);
}

#[test]
fn white_space_is_the_stated_set() {
    let stated = |u: u32| {
        (0x09..=0x0D).contains(&u)
            || u == 0x20
            || u == 0x85
            || u == 0xA0
            || u == 0x1680
            || (0x2000..=0x200A).contains(&u)
            || u == 0x2028
            || u == 0x2029
            || u == 0x202F
            || u == 0x205F
            || u == 0x3000
    };
    for c in (0u32..=0x10FFFF).filter_map(char::from_u32) {
        assert_eq!(c.is_whitespace(), stated(c as u32), "{c:?}");
    }
}

#[test]
fn numbers_are_read_with_an_optional_sign() {
    assert_eq!(parse_key_number(" 12 "), Ok(12));
    assert_eq!(parse_key_number("\u{3000}12\u{85}"), Ok(12));
    assert_eq!(parse_key_number("+7"), Ok(7));
    assert_eq!(parse_key_number("-2147483648"), Ok(i32::MIN));
    assert!(parse_key_number("2147483648").is_err());
    assert!(parse_key_number("+").is_err());
    assert!(parse_key_number("-").is_err());
    assert!(parse_key_number("").is_err());
    assert!(parse_key_number("1 2").is_err());
    assert_eq!(RsaApp::parse_value("p", "+5"), Ok(5));
    assert_eq!(
        RsaApp::parse_value("p", "-0"),
        Err("Поле p должно быть целым положительным числом.".to_string())
    );
    assert_eq!(RsaApp::parse_value("p", "18446744073709551615"), Ok(u64::MAX));
    assert!(RsaApp::parse_value("p", "18446744073709551616").is_err());
    assert_eq!(seed_register("+101"), 5);
    assert_eq!(seed_register("-1"), 0);
    assert_eq!(seed_register("2"), 0);
    assert_eq!(seed_register(&"1".repeat(64)), u64::MAX);
    assert_eq!(seed_register(&"1".repeat(65)), 0);
}
