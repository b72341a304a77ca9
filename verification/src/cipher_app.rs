//! The state of the text-cipher window and what its buttons do.
use crate::chars::{trim, trimmed};
use crate::decimation::{
    decimation_spec, decrypt_decimation, decryption_fits, encrypt_decimation, encryption_fits,
    lemma_decimation_round_trip,
};
use crate::vigenere::{decrypt_vigenere_ru, encrypt_vigenere_ru, lemma_vigenere_round_trip, vigenere_spec};
use vstd::prelude::*;

verus! {

pub const MSG_ENTER_KEY: &'static str = "Введите ключ.";

pub const MSG_ENTER_TEXT: &'static str = "Введите текст.";

pub const MSG_READ_FAILED: &'static str = "Ошибка чтения файла.";

pub const MSG_NOTHING_TO_SAVE: &'static str = "Нет данных для сохранения.";

pub const MSG_WRITE_FAILED: &'static str = "Ошибка записи файла.";

/// The cipher chosen in the window.
#[derive(Clone, Copy, Debug, PartialEq, Eq, Structural)]
pub enum EncryptionAlgorithm {
    DecimationEnglish,
    VigenereRussian,
}

/// The contents of the text-cipher window.
pub struct CipherApp {
    pub key_input: String,
    pub input_text: String,
    pub output_text: String,
    pub selected_algorithm: EncryptionAlgorithm,
    pub error_message: Option<String>,
}

impl Default for CipherApp {
    /// Empty fields, the decimation cipher, no error.
    fn default() -> (app: CipherApp)
        ensures
            app.key_input@ == Seq::<char>::empty(),
            app.input_text@ == Seq::<char>::empty(),
            app.output_text@ == Seq::<char>::empty(),
            app.selected_algorithm == EncryptionAlgorithm::DecimationEnglish,
            app.error_message is None,
    {
        CipherApp {
            key_input: String::new(),
            input_text: String::new(),
            output_text: String::new(),
            selected_algorithm: EncryptionAlgorithm::DecimationEnglish,
            error_message: None,
        }
    }
}

/// What a button gives: the result text, or the error to show.
pub open spec fn action_spec(
    key: Seq<char>,
    text: Seq<char>,
    algorithm: EncryptionAlgorithm,
    decrypt: bool,
) -> Result<Seq<char>, Seq<char>> {
    if trimmed(key).len() == 0 {
        Err(MSG_ENTER_KEY@)
    } else if trimmed(text).len() == 0 {
        Err(MSG_ENTER_TEXT@)
    } else {
        match algorithm {
            EncryptionAlgorithm::DecimationEnglish => decimation_spec(text, key, decrypt),
            EncryptionAlgorithm::VigenereRussian => vigenere_spec(text, key, decrypt),
        }
    }
}

/// The window after a button: the result replaces the output, or the error
/// is shown; nothing else changes.
pub open spec fn after_action(old_app: CipherApp, new_app: CipherApp, decrypt: bool) -> bool {
    &&& new_app.key_input == old_app.key_input
    &&& new_app.input_text == old_app.input_text
    &&& new_app.selected_algorithm == old_app.selected_algorithm
    &&& match action_spec(
        old_app.key_input@,
        old_app.input_text@,
        old_app.selected_algorithm,
        decrypt,
    ) {
        Ok(t) => new_app.output_text@ == t && new_app.error_message == old_app.error_message,
        Err(msg) => {
            &&& new_app.output_text == old_app.output_text
            &&& new_app.error_message matches Some(e) && e@ == msg
        },
    }
}

/// Both the key and the text hold more than white space, so a button goes
/// on to the cipher.
pub open spec fn fields_filled(app: CipherApp) -> bool {
    trimmed(app.key_input@).len() > 0 && trimmed(app.input_text@).len() > 0
}

/// Two window states agree on everything but the error shown.
pub open spec fn same_except_error(a: CipherApp, b: CipherApp) -> bool {
    &&& a.key_input == b.key_input
    &&& a.input_text == b.input_text
    &&& a.output_text == b.output_text
    &&& a.selected_algorithm == b.selected_algorithm
}

impl CipherApp {
    /// Whether both the key and the text hold more than white space.
    pub fn fields_filled(&self) -> (b: bool)
        ensures
            b == fields_filled(*self),
    {
        !trim(self.key_input.as_str()).is_empty() && !trim(self.input_text.as_str()).is_empty()
    }

    /// A file was opened: its text becomes the input, or, when it could not
    /// be read (`None`), the error says so.
    pub fn load_text(&mut self, content: Option<String>)
        ensures
            final(self).key_input == old(self).key_input,
            final(self).output_text == old(self).output_text,
            final(self).selected_algorithm == old(self).selected_algorithm,
            match content {
                Some(t) => final(self).input_text == t && final(self).error_message
                    == old(self).error_message,
                None => final(self).input_text == old(self).input_text
                    && (final(self).error_message matches Some(e) && e@ == MSG_READ_FAILED@),
            },
    {
        match content {
            Some(t) => self.input_text = t,
            None => self.error_message = Some(String::from_str(MSG_READ_FAILED)),
        }
    }

    /// Before saving: there must be a result; when there is none the error
    /// says so and `false` comes back.
    pub fn check_output_to_save(&mut self) -> (ok: bool)
        ensures
            same_except_error(*old(self), *final(self)),
            ok == (old(self).output_text@.len() > 0),
            ok ==> final(self).error_message == old(self).error_message,
            !ok ==> (final(self).error_message matches Some(e) && e@ == MSG_NOTHING_TO_SAVE@),
    {
        if self.output_text.as_str().is_empty() {
            self.error_message = Some(String::from_str(MSG_NOTHING_TO_SAVE));
            false
        } else {
            true
        }
    }

    /// Writing the result failed.
    pub fn save_failed(&mut self)
        ensures
            same_except_error(*old(self), *final(self)),
            final(self).error_message matches Some(e) && e@ == MSG_WRITE_FAILED@,
    {
        self.error_message = Some(String::from_str(MSG_WRITE_FAILED));
    }

    /// A cipher was picked: it becomes the selected one and the result is cleared.
    pub fn select_algorithm(&mut self, algorithm: EncryptionAlgorithm)
        ensures
            final(self).key_input == old(self).key_input,
            final(self).input_text == old(self).input_text,
            final(self).error_message == old(self).error_message,
            final(self).selected_algorithm == algorithm,
            final(self).output_text@ == Seq::<char>::empty(),
    {
        self.selected_algorithm = algorithm;
        self.output_text = String::new();
    }

    /// The error was acknowledged.
    pub fn dismiss_error(&mut self)
        ensures
            same_except_error(*old(self), *final(self)),
            final(self).error_message is None,
    {
        self.error_message = None;
    }

    /// The "encrypt" button.
    pub fn encrypt_action(&mut self)
        requires
            old(self).selected_algorithm == EncryptionAlgorithm::DecimationEnglish && fields_filled(
                *old(self),
            ) ==> encryption_fits(old(self).input_text@, old(self).key_input@),
        ensures
            after_action(*old(self), *final(self), false),
    {
        self.run_action(false)
    }

    /// The "decrypt" button.
    pub fn decrypt_action(&mut self)
        requires
            old(self).selected_algorithm == EncryptionAlgorithm::DecimationEnglish && fields_filled(
                *old(self),
            ) ==> decryption_fits(old(self).key_input@),
        ensures
            after_action(*old(self), *final(self), true),
    {
        self.run_action(true)
    }

    fn run_action(&mut self, decrypt: bool)
        requires
            old(self).selected_algorithm == EncryptionAlgorithm::DecimationEnglish && fields_filled(
                *old(self),
            ) ==> if decrypt {
                decryption_fits(old(self).key_input@)
            } else {
                encryption_fits(old(self).input_text@, old(self).key_input@)
            },
        ensures
            after_action(*old(self), *final(self), decrypt),
    {
        if trim(self.key_input.as_str()).is_empty() {
            self.error_message = Some(String::from_str(MSG_ENTER_KEY));
            return;
        }
        if trim(self.input_text.as_str()).is_empty() {
            self.error_message = Some(String::from_str(MSG_ENTER_TEXT));
            return;
        }
        let result = match self.selected_algorithm {
            EncryptionAlgorithm::DecimationEnglish => {
                if decrypt {
                    decrypt_decimation(self.input_text.as_str(), self.key_input.as_str())
                } else {
                    encrypt_decimation(self.input_text.as_str(), self.key_input.as_str())
                }
            },
            EncryptionAlgorithm::VigenereRussian => {
                if decrypt {
                    decrypt_vigenere_ru(self.input_text.as_str(), self.key_input.as_str())
                } else {
                    encrypt_vigenere_ru(self.input_text.as_str(), self.key_input.as_str())
                }
            },
        };
        match result {
            Ok(text) => self.output_text = text,
            Err(err) => self.error_message = Some(err),
        }
    }
}

/// The buttons run the selected cipher the way they say: whenever a button
/// gives a result, the other direction of the selected cipher, with the same
/// key, maps that result back to the input. (Each direction undoes the
/// other, so this fixes the result: the decrypt button shows the one text
/// whose encryption is the input, the encrypt button the one text whose
/// decryption is the input.)
pub proof fn lemma_buttons_run_the_selected_cipher(
    old_app: CipherApp,
    new_app: CipherApp,
    decrypt: bool,
)
    requires
        after_action(old_app, new_app, decrypt),
        action_spec(old_app.key_input@, old_app.input_text@, old_app.selected_algorithm, decrypt)
            is Ok,
    ensures
        fields_filled(old_app),
        new_app.selected_algorithm == old_app.selected_algorithm,
        old_app.selected_algorithm == EncryptionAlgorithm::VigenereRussian ==> vigenere_spec(
            new_app.output_text@,
            old_app.key_input@,
            !decrypt,
        ) == Ok::<Seq<char>, Seq<char>>(old_app.input_text@),
        old_app.selected_algorithm == EncryptionAlgorithm::DecimationEnglish ==> decimation_spec(
            new_app.output_text@,
            old_app.key_input@,
            !decrypt,
        ) == Ok::<Seq<char>, Seq<char>>(old_app.input_text@),
{
    let key = old_app.key_input@;
    let text = old_app.input_text@;
    match old_app.selected_algorithm {
        EncryptionAlgorithm::VigenereRussian => {
            lemma_vigenere_round_trip(text, key);
        },
        EncryptionAlgorithm::DecimationEnglish => {
            lemma_decimation_round_trip(text, key);
        },
    }
}

} // verus!
