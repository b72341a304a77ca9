use crypto_labs::cipher_app::{CipherApp, EncryptionAlgorithm};
use crypto_labs::lfsr::LFSR;
use crypto_labs::rsa_app::RsaApp;
use crypto_labs::stream_app::{
    lfsr_with_seed, processing_status, sanitize_seed_input, seed_register, StreamApp,
};

#[test]
fn cipher_app_requires_key_and_text() {
    let mut app = CipherApp::default();
    app.encrypt_action();
    assert_eq!(app.error_message.as_deref(), Some("Введите ключ."));
    app.key_input = "3".to_string();
    app.input_text = "   ".to_string();
    app.error_message = None;
    app.encrypt_action();
    assert_eq!(app.error_message.as_deref(), Some("Введите текст."));
}

#[test]
fn cipher_app_encrypts_and_decrypts() {
    let mut app = CipherApp::default();
    app.key_input = "3".to_string();
    app.input_text = "Hello".to_string();
    app.encrypt_action();
    assert_eq!(app.output_text, "Vmhhq");
    assert_eq!(app.error_message, None);
    app.input_text = "Vmhhq".to_string();
    app.decrypt_action();
    assert_eq!(app.output_text, "Hello");
    app.selected_algorithm = EncryptionAlgorithm::VigenereRussian;
    app.key_input = "б".to_string();
    app.input_text = "абв".to_string();
    app.encrypt_action();
    assert_eq!(app.output_text, "бвг");
    app.key_input = "b".to_string();
    app.encrypt_action();
    assert_eq!(app.output_text, "бвг");
    assert_eq!(app.error_message.as_deref(), Some("Ключ должен содержать русские буквы."));
}

#[test]
fn rsa_app_fields() {
    let mut app = RsaApp::default();
    let params = app.rsa_params().unwrap();
    assert_eq!(params.r, 60491);
    app.q_input = " ".to_string();
    assert_eq!(app.rsa_params().unwrap_err(), "Поле q пустое.");
    app.q_input = "x1".to_string();
    assert_eq!(app.rsa_params().unwrap_err(), "Поле q должно быть целым положительным числом.");
    let mut field = "2a5-1".to_string();
    RsaApp::sanitize_numeric_input(&mut field);
    assert_eq!(field, "251");
    assert_eq!(RsaApp::parse_value("d", " 17 "), Ok(17));
}

#[test]
fn rsa_app_paths() {
    let mut app = RsaApp::default();
    assert_eq!(app.validate_paths(), Ok(()));
    app.output_path = "input.bin".to_string();
    assert_eq!(app.validate_paths().unwrap_err(), "Входной и выходной файл должны быть разными.");
    app.output_path = "".to_string();
    assert_eq!(app.validate_paths().unwrap_err(), "Не указан выходной файл.");
    app.input_path = " ".to_string();
    assert_eq!(app.validate_paths().unwrap_err(), "Не указан входной файл.");
}

#[test]
fn rsa_app_actions() {
    let mut app = RsaApp::default();
    assert_eq!(app.plaintext_source_path(), None);
    app.finish_encryption(vec![1; 300]);
    assert_eq!(app.status_message, "Шифрование успешно завершено. Сформировано 300 блоков по 16 бит.");
    assert_eq!(app.plaintext_source_path(), Some("input.bin"));
    assert_eq!(app.data_byte_len(), 300);
    app.update_offset_and_views(280);
    assert_eq!(app.view.current_offset, 280);
    app.update_offset_and_views(400);
    assert_eq!(app.view.current_offset, 44);
    app.show_cipher_blocks(vec![2; 10]);
    assert_eq!(app.view.current_offset, 0);
    app.finish_decryption();
    assert_eq!(app.status_message, "Расшифрование успешно завершено.");
    assert_eq!(app.plaintext_source_path(), Some("output.bin"));
}

#[test]
fn stream_app_seed() {
    let mut seed = "10a1 0".to_string();
    sanitize_seed_input(&mut seed);
    assert_eq!(seed, "1010");
    let mut long = "1".repeat(40);
    sanitize_seed_input(&mut long);
    assert_eq!(long.len(), 30);
    assert_eq!(seed_register("1010"), 10);
    assert_eq!(seed_register(""), 0);
    let l: LFSR = lfsr_with_seed(&"1".repeat(30));
    assert_eq!(l.register, 0x3FFF_FFFF);
    assert_eq!(processing_status(10, 256), "Шифрование малого файла (10 байт)...");
    assert_eq!(processing_status(256, 256), "Шифрование...");
}

#[test]
fn cipher_app_file_and_choice() {
    let mut app = CipherApp::default();
    assert!(!app.check_output_to_save());
    assert_eq!(app.error_message.as_deref(), Some("Нет данных для сохранения."));
    app.dismiss_error();
    assert_eq!(app.error_message, None);
    app.load_text(None);
    assert_eq!(app.error_message.as_deref(), Some("Ошибка чтения файла."));
    app.dismiss_error();
    app.load_text(Some("abc".to_string()));
    assert_eq!(app.input_text, "abc");
    app.output_text = "xyz".to_string();
    assert!(app.check_output_to_save());
    assert_eq!(app.error_message, None);
    app.save_failed();
    assert_eq!(app.error_message.as_deref(), Some("Ошибка записи файла."));
    app.select_algorithm(EncryptionAlgorithm::VigenereRussian);
    assert_eq!(app.selected_algorithm, EncryptionAlgorithm::VigenereRussian);
    assert_eq!(app.output_text, "");
    assert_eq!(app.input_text, "abc");
}

#[test]
fn stream_app_start_and_finish() {
    let mut app = StreamApp::default();
    assert_eq!(app.seed_input, "1".repeat(30));
    assert_eq!(app.status_message, "Готов к работе");
    assert!(app.start_processing(None).is_none());
    assert_eq!(app.status_message, "Ошибка: Файл не найден");
    assert!(app.start_processing(Some(0)).is_none());
    assert_eq!(app.status_message, "Ошибка: Входной файл пуст");
    assert_eq!(app.file_size, 0);
    app.seed_input = "101".to_string();
    let l = app.start_processing(Some(100)).unwrap();
    assert_eq!((l.register, l.mask, l.size), (5, 0x2000_C001, 30));
    assert_eq!(app.file_size, 100);
    assert_eq!(app.status_message, "Шифрование малого файла (100 байт)...");
    assert!(app.start_processing(Some(1000)).is_some());
    assert_eq!(app.status_message, "Шифрование...");

    app.view.current_offset = 512;
    app.finish_processing(300, 300);
    assert_eq!(app.view.current_offset, 0);
    assert_eq!(app.file_size, 300);
    assert_eq!(app.status_message, "✅ Готово!");
    app.view.current_offset = 256;
    app.status_message = "x".to_string();
    app.finish_processing(400, 10);
    assert_eq!(app.view.current_offset, 256);
    assert_eq!(app.status_message, "x");
    app.finish_processing(0, 10);
    assert_eq!(app.status_message, "❌ Файл пуст");
    assert_eq!(app.view.current_offset, 256);
}

#[test]
fn stream_app_progress_label() {
    let mut app = StreamApp::default();
    app.file_size = 1000;
    assert_eq!(app.progress_label(true, 256), "Обработано: 256 / 1000 байт");
    assert_eq!(app.progress_label(false, 1000), "✅ Готово");
    assert_eq!(app.progress_label(false, 999), "💤 Ожидание");
    app.file_size = 0;
    assert_eq!(app.progress_label(false, 0), "💤 Ожидание");
}

#[test]
fn rsa_app_begin_action() {
    let mut app = RsaApp::default();
    let k = app.begin_action().unwrap();
    assert_eq!((k.r, k.phi, k.e), (60491, 60000, 42353));
    assert_eq!(app.status_message, "Готово к работе");
    app.d_input = "".to_string();
    assert!(app.begin_action().is_none());
    assert_eq!(app.status_message, "Поле d пустое.");
    app.d_input = "10".to_string();
    assert!(app.begin_action().is_none());
    assert_eq!(app.status_message, "d и phi(r) должны быть взаимно простыми (НОД = 1).");
    app.output_path = "input.bin".to_string();
    assert!(app.begin_action().is_none());
    assert_eq!(app.status_message, "Входной и выходной файл должны быть разными.");
}

#[test]
fn rsa_app_failure_messages() {
    let mut app = RsaApp::default();
    app.encryption_failed("нет файла");
    assert_eq!(app.status_message, "Ошибка шифрования: нет файла");
    app.blocks_unreadable("e");
    assert_eq!(app.status_message, "Файл зашифрован, но не удалось прочитать блоки для вывода: e");
    app.cipher_unreadable("e");
    assert_eq!(app.status_message, "Ошибка чтения шифротекста: e");
    app.decryption_failed("e");
    assert_eq!(app.status_message, "Ошибка расшифрования: e");
    assert_eq!(app.last_action, "-");
}

#[test]
fn rsa_app_views() {
    let mut app = RsaApp::default();
    assert_eq!(app.cipher_view_text(), "(нет данных)");
    assert_eq!(app.plaintext_view_text(&[]), "(нет данных — выполните шифрование или расшифрование)");
    let blocks: Vec<u16> = (0..300).collect();
    app.show_cipher_blocks(blocks);
    assert_eq!(
        app.plaintext_view_text(&[1]),
        "(выполните шифрование или расшифрование для сравнения с исходником)"
    );
    app.view.current_offset = 290;
    assert_eq!(app.visible_count(), 10);
    assert_eq!(app.blocks_on_view(), (290..300).collect::<Vec<u16>>());
    assert_eq!(app.cipher_view_text(), "290 291 292 293 294 295 296 297 298 299");
    app.view.current_offset = 0;
    assert_eq!(app.visible_count(), 256);
    app.finish_decryption();
    assert_eq!(app.plaintext_view_text(&[5, 255]), "00000101 11111111 ");
}

#[test]
fn rsa_app_view_stays_within_blocks() {
    let mut app = RsaApp::default();
    let within = |a: &RsaApp| a.view.current_offset <= a.cipher_blocks.len() as u64;
    assert!(within(&app));
    app.finish_encryption(vec![7; 600]);
    for offset in [0, 100, 599, 600, 1000, u64::MAX] {
        app.update_offset_and_views(offset);
        assert!(within(&app));
    }
    assert_eq!(app.view.current_offset, 344);
    app.show_cipher_blocks(vec![1; 5]);
    assert!(within(&app));
    app.view.current_offset = 3;
    app.cipher_blocks = vec![1; 2];
    app.clamp_offset();
    assert_eq!(app.view.current_offset, 0);
    assert!(within(&app));
}

#[test]
fn cipher_app_blank_fields_come_before_the_key_checks() {
    let mut app = CipherApp::default();
    app.key_input = "2147483647".to_string();
    app.input_text = "  ".to_string();
    assert!(!app.fields_filled());
    app.decrypt_action();
    assert_eq!(app.error_message.as_deref(), Some("Введите текст."));
    app.input_text = "abc".to_string();
    assert!(app.fields_filled());
}
