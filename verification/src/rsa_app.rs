//! The state of the RSA file window and the decisions its controls make.
use crate::chars::{
    all_digits, digits_of, digits_value, keep_ascii_digits, parse_u64, parsed_u64, trim, trimmed,
};
use crate::display::{binary_view, decimal_view, format_binary_view, format_cipher_blocks_decimal};
use crate::paging::{last_chunk_offset, visible_items, ChunkView};
use crate::rsa::{build_rsa_params, rsa_params_spec, RsaParams};
use crate::text::{decimal, push_decimal, push_str, str_eq};
use vstd::prelude::*;

verus! {

pub const ACTION_NONE: &'static str = "-";

pub const ACTION_ENCRYPT: &'static str = "Шифрование";

pub const ACTION_DECRYPT: &'static str = "Расшифрование";

pub const MSG_READY: &'static str = "Готово к работе";

pub const MSG_NO_INPUT_PATH: &'static str = "Не указан входной файл.";

pub const MSG_NO_OUTPUT_PATH: &'static str = "Не указан выходной файл.";

pub const MSG_SAME_PATHS: &'static str = "Входной и выходной файл должны быть разными.";

pub const MSG_DECRYPTED: &'static str = "Расшифрование успешно завершено.";

pub const NO_DATA_PLAIN: &'static str = "(нет данных — выполните шифрование или расшифрование)";

pub const NO_DATA_CIPHER: &'static str = "(нет данных)";

pub const NO_PLAINTEXT_YET: &'static str =
    "(выполните шифрование или расшифрование для сравнения с исходником)";

/// The contents of the RSA file window.
pub struct RsaApp {
    pub p_input: String,
    pub q_input: String,
    pub d_input: String,
    pub input_path: String,
    pub output_path: String,
    pub status_message: String,
    pub cipher_blocks: Vec<u16>,
    pub last_action: String,
    pub view: ChunkView,
}

/// The message for a field that is empty.
pub open spec fn empty_field_message(name: Seq<char>) -> Seq<char> {
    "Поле "@ + name + " пустое."@
}

/// The message for a field that is not a number.
pub open spec fn not_a_number_message(name: Seq<char>) -> Seq<char> {
    "Поле "@ + name + " должно быть целым положительным числом."@
}

/// What reading a numeric field gives.
pub open spec fn parse_value_spec(name: Seq<char>, value: Seq<char>) -> Result<u64, Seq<char>> {
    if trimmed(value).len() == 0 {
        Err(empty_field_message(name))
    } else {
        match parsed_u64(trimmed(value)) {
            Some(v) => Ok(v),
            None => Err(not_a_number_message(name)),
        }
    }
}

/// What the window's key fields give: the first field that cannot be read,
/// or the key set that `build_rsa_params` makes of them.
pub open spec fn rsa_params_from_fields(p: Seq<char>, q: Seq<char>, d: Seq<char>) -> Result<
    RsaParams,
    Seq<char>,
> {
    match parse_value_spec("p"@, p) {
        Err(e) => Err(e),
        Ok(pv) => match parse_value_spec("q"@, q) {
            Err(e) => Err(e),
            Ok(qv) => match parse_value_spec("d"@, d) {
                Err(e) => Err(e),
                Ok(dv) => rsa_params_spec(pv, qv, dv),
            },
        },
    }
}

/// Two window states agree on everything but the view position.
pub open spec fn same_except_view(a: RsaApp, b: RsaApp) -> bool {
    &&& a.p_input == b.p_input
    &&& a.q_input == b.q_input
    &&& a.d_input == b.d_input
    &&& a.input_path == b.input_path
    &&& a.output_path == b.output_path
    &&& a.status_message == b.status_message
    &&& a.cipher_blocks == b.cipher_blocks
    &&& a.last_action == b.last_action
}

/// The view offset lies within the blocks (at most their number), so the
/// chunk on view is a slice of them.
pub open spec fn view_in_range(app: RsaApp) -> bool {
    app.view.current_offset <= app.cipher_blocks@.len()
}

/// Two window states agree on everything but the status.
pub open spec fn same_except_status(a: RsaApp, b: RsaApp) -> bool {
    &&& a.p_input == b.p_input
    &&& a.q_input == b.q_input
    &&& a.d_input == b.d_input
    &&& a.input_path == b.input_path
    &&& a.output_path == b.output_path
    &&& a.cipher_blocks == b.cipher_blocks
    &&& a.last_action == b.last_action
    &&& a.view == b.view
}

/// The blocks on view.
pub open spec fn blocks_on_view_spec(app: RsaApp) -> Seq<u16> {
    app.cipher_blocks@.subrange(
        app.view.current_offset as int,
        app.view.current_offset + visible_items(
            app.view.current_offset,
            app.view.chunk_size,
            app.cipher_blocks@.len() as u64,
        ),
    )
}

/// What checking the file fields gives.
pub open spec fn validate_paths_spec(input: Seq<char>, output: Seq<char>) -> Result<(), Seq<char>> {
    if trimmed(input).len() == 0 {
        Err(MSG_NO_INPUT_PATH@)
    } else if trimmed(output).len() == 0 {
        Err(MSG_NO_OUTPUT_PATH@)
    } else if input == output {
        Err(MSG_SAME_PATHS@)
    } else {
        Ok(())
    }
}

/// The message after encryption into `n` blocks.
pub open spec fn encrypted_message(n: nat) -> Seq<char> {
    "Шифрование успешно завершено. Сформировано "@ + decimal(n) + " блоков по 16 бит."@
}

impl Default for RsaApp {
    /// The window as it opens: the key 251, 241, 17, files `input.bin` and
    /// `output.bin`, no blocks, chunks of 256 from offset 0.
    fn default() -> (app: RsaApp)
        ensures
            app.p_input@ == "251"@,
            app.q_input@ == "241"@,
            app.d_input@ == "17"@,
            app.input_path@ == "input.bin"@,
            app.output_path@ == "output.bin"@,
            app.status_message@ == MSG_READY@,
            app.cipher_blocks@.len() == 0,
            app.last_action@ == ACTION_NONE@,
            app.view.current_offset == 0,
            app.view.chunk_size == 256,
            view_in_range(app),
    {
        RsaApp {
            p_input: String::from_str("251"),
            q_input: String::from_str("241"),
            d_input: String::from_str("17"),
            input_path: String::from_str("input.bin"),
            output_path: String::from_str("output.bin"),
            status_message: String::from_str(MSG_READY),
            cipher_blocks: Vec::new(),
            last_action: String::from_str(ACTION_NONE),
            view: ChunkView { current_offset: 0, chunk_size: 256 },
        }
    }
}

impl RsaApp {

    /// Keeps only the ASCII digits of a field.
    pub fn sanitize_numeric_input(value: &mut String)
        ensures
            final(value)@ == digits_of(old(value)@),
    {
        *value = keep_ascii_digits(value.as_str());
    }

    /// Reads the numeric field called `name`.
    pub fn parse_value(name: &str, value: &str) -> (res: Result<u64, String>)
        ensures
            match parse_value_spec(name@, value@) {
                Ok(v) => res == Ok::<u64, String>(v),
                Err(msg) => res matches Err(e) && e@ == msg,
            },
            value@.len() > 0 && all_digits(value@) ==> match res {
                Ok(v) => v == digits_value(value@),
                Err(_) => digits_value(value@) > u64::MAX,
            },
    {
        proof {
            if value@.len() > 0 && all_digits(value@) {
                crate::chars::lemma_trim_digits(value@);
                crate::chars::lemma_parse_digits(value@);
            }
        }
        let t = trim(value);
        if t.is_empty() {
            let mut msg = String::new();
            push_str(&mut msg, "Поле ");
            push_str(&mut msg, name);
            push_str(&mut msg, " пустое.");
            return Err(msg);
        }
        match parse_u64(t) {
            Some(v) => Ok(v),
            None => {
                let mut msg = String::new();
                push_str(&mut msg, "Поле ");
                push_str(&mut msg, name);
                push_str(&mut msg, " должно быть целым положительным числом.");
                Err(msg)
            },
        }
    }

    /// The key set that the key fields give.
    pub fn rsa_params(&self) -> (res: Result<RsaParams, String>)
        ensures
            match (res, rsa_params_from_fields(self.p_input@, self.q_input@, self.d_input@)) {
                (Ok(v), Ok(w)) => v == w,
                (Err(e), Err(msg)) => e@ == msg,
                _ => false,
            },
    {
        let p = Self::parse_value("p", self.p_input.as_str())?;
        let q = Self::parse_value("q", self.q_input.as_str())?;
        let d = Self::parse_value("d", self.d_input.as_str())?;
        build_rsa_params(p, q, d)
    }

    /// Checks the file fields: both given, and different.
    pub fn validate_paths(&self) -> (res: Result<(), String>)
        ensures
            match (res, validate_paths_spec(self.input_path@, self.output_path@)) {
                (Ok(_), Ok(_)) => true,
                (Err(e), Err(msg)) => e@ == msg,
                _ => false,
            },
    {
        if trim(self.input_path.as_str()).is_empty() {
            return Err(String::from_str(MSG_NO_INPUT_PATH));
        }
        if trim(self.output_path.as_str()).is_empty() {
            return Err(String::from_str(MSG_NO_OUTPUT_PATH));
        }
        if self.input_path == self.output_path {
            return Err(String::from_str(MSG_SAME_PATHS));
        }
        Ok(())
    }

    /// The number of blocks on view.
    pub fn data_byte_len(&self) -> (n: u64)
        ensures
            n == self.cipher_blocks@.len(),
    {
        self.cipher_blocks.len() as u64
    }

    /// The file that holds the plaintext of the blocks on view: the input
    /// after encryption, the output after decryption.
    pub fn plaintext_source_path(&self) -> (path: Option<&str>)
        ensures
            self.last_action@ == ACTION_ENCRYPT@ ==> (path matches Some(s) && s@ == self.input_path@),
            self.last_action@ == ACTION_DECRYPT@ ==> (path matches Some(s) && s@ == self.output_path@),
            self.last_action@ != ACTION_ENCRYPT@ && self.last_action@ != ACTION_DECRYPT@ ==> path is None,
    {
        proof {
            reveal_strlit("Шифрование");
            reveal_strlit("Расшифрование");
            assert(ACTION_ENCRYPT@.len() != ACTION_DECRYPT@.len());
        }
        if str_eq(self.last_action.as_str(), ACTION_ENCRYPT) {
            Some(self.input_path.as_str())
        } else if str_eq(self.last_action.as_str(), ACTION_DECRYPT) {
            Some(self.output_path.as_str())
        } else {
            None
        }
    }

    /// Keeps the offset inside the blocks on view.
    pub fn clamp_offset(&mut self)
        ensures
            same_except_view(*old(self), *final(self)),
            final(self).view.chunk_size == old(self).view.chunk_size,
            final(self).view.current_offset == if old(self).cipher_blocks@.len() == 0 {
                0
            } else if old(self).view.current_offset > last_chunk_offset(
                old(self).cipher_blocks@.len() as u64,
                old(self).view.chunk_size,
            ) {
                last_chunk_offset(old(self).cipher_blocks@.len() as u64, old(self).view.chunk_size)
            } else {
                old(self).view.current_offset
            },
            view_in_range(*final(self)),
    {
        let data_len = self.data_byte_len();
        self.view.clamp_offset(data_len);
    }

    /// Moves the view to `new_offset` when it lies inside the blocks, and to
    /// the last chunk otherwise.
    pub fn update_offset_and_views(&mut self, new_offset: u64)
        ensures
            same_except_view(*old(self), *final(self)),
            final(self).view.chunk_size == old(self).view.chunk_size,
            final(self).view.current_offset == if new_offset < old(self).cipher_blocks@.len() {
                new_offset
            } else if old(self).cipher_blocks@.len() > 0 {
                last_chunk_offset(old(self).cipher_blocks@.len() as u64, old(self).view.chunk_size)
            } else {
                old(self).view.current_offset
            },
            view_in_range(*old(self)) ==> view_in_range(*final(self)),
    {
        let data_len = self.data_byte_len();
        self.view.update_offset(new_offset, data_len);
    }

    /// After encryption and reading the blocks back: the blocks are on view
    /// from the start, and the status says how many there are.
    pub fn finish_encryption(&mut self, blocks: Vec<u16>)
        ensures
            final(self).cipher_blocks == blocks,
            final(self).view.current_offset == 0,
            final(self).view.chunk_size == old(self).view.chunk_size,
            final(self).last_action@ == ACTION_ENCRYPT@,
            final(self).status_message@ == encrypted_message(blocks@.len()),
            view_in_range(*final(self)),
    {
        self.cipher_blocks = blocks;
        self.view.current_offset = 0;
        self.clamp_offset();
        self.last_action = String::from_str(ACTION_ENCRYPT);
        let mut msg = String::new();
        push_str(&mut msg, "Шифрование успешно завершено. Сформировано ");
        push_decimal(&mut msg, self.cipher_blocks.len() as u64);
        push_str(&mut msg, " блоков по 16 бит.");
        self.status_message = msg;
    }

    /// After reading the ciphertext to decrypt: its blocks are on view from
    /// the start.
    pub fn show_cipher_blocks(&mut self, blocks: Vec<u16>)
        ensures
            final(self).cipher_blocks == blocks,
            final(self).view.current_offset == 0,
            final(self).view.chunk_size == old(self).view.chunk_size,
            final(self).last_action == old(self).last_action,
            final(self).status_message == old(self).status_message,
            view_in_range(*final(self)),
    {
        self.cipher_blocks = blocks;
        self.view.current_offset = 0;
        self.clamp_offset();
    }

    /// After decryption: the status says so.
    pub fn finish_decryption(&mut self)
        ensures
            final(self).cipher_blocks == old(self).cipher_blocks,
            final(self).view == old(self).view,
            final(self).last_action@ == ACTION_DECRYPT@,
            final(self).status_message@ == MSG_DECRYPTED@,
            view_in_range(*old(self)) ==> view_in_range(*final(self)),
    {
        self.last_action = String::from_str(ACTION_DECRYPT);
        self.status_message = String::from_str(MSG_DECRYPTED);
    }

    /// Before either button does its file work: the file fields and then the
    /// key fields are checked; the first complaint becomes the status and
    /// `None` comes back, otherwise the key set does.
    pub fn begin_action(&mut self) -> (params: Option<RsaParams>)
        ensures
            same_except_status(*old(self), *final(self)),
            match validate_paths_spec(old(self).input_path@, old(self).output_path@) {
                Err(msg) => params is None && final(self).status_message@ == msg,
                Ok(_) => match rsa_params_from_fields(
                    old(self).p_input@,
                    old(self).q_input@,
                    old(self).d_input@,
                ) {
                    Err(msg) => params is None && final(self).status_message@ == msg,
                    Ok(k) => params == Some(k) && final(self).status_message
                        == old(self).status_message,
                },
            },
            view_in_range(*old(self)) ==> view_in_range(*final(self)),
    {
        if let Err(e) = self.validate_paths() {
            self.status_message = e;
            return None;
        }
        match self.rsa_params() {
            Ok(params) => Some(params),
            Err(e) => {
                self.status_message = e;
                None
            },
        }
    }

    /// Encrypting the file failed with the error `err`.
    pub fn encryption_failed(&mut self, err: &str)
        ensures
            same_except_status(*old(self), *final(self)),
            final(self).status_message@ == "Ошибка шифрования: "@ + err@,
            view_in_range(*old(self)) ==> view_in_range(*final(self)),
    {
        let mut msg = String::new();
        push_str(&mut msg, "Ошибка шифрования: ");
        push_str(&mut msg, err);
        self.status_message = msg;
    }

    /// The file was encrypted, but its blocks could not be read back (`err`).
    pub fn blocks_unreadable(&mut self, err: &str)
        ensures
            same_except_status(*old(self), *final(self)),
            final(self).status_message@ == "Файл зашифрован, но не удалось прочитать блоки для вывода: "@
                + err@,
            view_in_range(*old(self)) ==> view_in_range(*final(self)),
    {
        let mut msg = String::new();
        push_str(&mut msg, "Файл зашифрован, но не удалось прочитать блоки для вывода: ");
        push_str(&mut msg, err);
        self.status_message = msg;
    }

    /// The ciphertext to decrypt could not be read (`err`).
    pub fn cipher_unreadable(&mut self, err: &str)
        ensures
            same_except_status(*old(self), *final(self)),
            final(self).status_message@ == "Ошибка чтения шифротекста: "@ + err@,
            view_in_range(*old(self)) ==> view_in_range(*final(self)),
    {
        let mut msg = String::new();
        push_str(&mut msg, "Ошибка чтения шифротекста: ");
        push_str(&mut msg, err);
        self.status_message = msg;
    }

    /// Decrypting the file failed with the error `err`.
    pub fn decryption_failed(&mut self, err: &str)
        ensures
            same_except_status(*old(self), *final(self)),
            final(self).status_message@ == "Ошибка расшифрования: "@ + err@,
            view_in_range(*old(self)) ==> view_in_range(*final(self)),
    {
        let mut msg = String::new();
        push_str(&mut msg, "Ошибка расшифрования: ");
        push_str(&mut msg, err);
        self.status_message = msg;
    }

    /// How many blocks the chunk on view shows.
    pub fn visible_count(&self) -> (n: u64)
        ensures
            n == visible_items(
                self.view.current_offset,
                self.view.chunk_size,
                self.cipher_blocks@.len() as u64,
            ),
    {
        self.view.visible_len(self.data_byte_len())
    }

    /// The blocks on view.
    pub fn blocks_on_view(&self) -> (v: Vec<u16>)
        requires
            view_in_range(*self),
        ensures
            v@ == blocks_on_view_spec(*self),
    {
        let ulen: usize = self.cipher_blocks.len();
        let len = self.data_byte_len();
        let count = self.visible_count();
        assert(count <= len - self.view.current_offset);
        assert(self.view.current_offset <= ulen && count <= ulen);
        let start = self.view.current_offset as usize;
        let take = count as usize;
        assert(start == self.view.current_offset && take == count);
        let mut v: Vec<u16> = Vec::new();
        for i in 0..take
            invariant
                start == self.view.current_offset,
                take == visible_items(
                    self.view.current_offset,
                    self.view.chunk_size,
                    self.cipher_blocks@.len() as u64,
                ),
                start + take <= self.cipher_blocks@.len(),
                self.cipher_blocks@.len() == ulen,
                v@ == self.cipher_blocks@.subrange(start as int, start + i),
        {
            v.push(self.cipher_blocks[start + i]);
            assert(v@ =~= self.cipher_blocks@.subrange(start as int, start + i + 1));
        }
        v
    }

    /// The ciphertext column: the blocks on view in decimal, or a note when
    /// there are none.
    pub fn cipher_view_text(&self) -> (s: String)
        requires
            self.cipher_blocks@.len() > 0 ==> view_in_range(*self),
        ensures
            s@ == if self.cipher_blocks@.len() == 0 {
                NO_DATA_CIPHER@
            } else {
                decimal_view(blocks_on_view_spec(*self))
            },
    {
        if self.cipher_blocks.len() == 0 {
            return String::from_str(NO_DATA_CIPHER);
        }
        let blocks = self.blocks_on_view();
        format_cipher_blocks_decimal(blocks.as_slice())
    }

    /// The plaintext column, given the bytes read from the plaintext file at
    /// the offset on view: a note when there are no blocks or no operation
    /// has run yet, the bytes in binary otherwise.
    pub fn plaintext_view_text(&self, chunk: &[u8]) -> (s: String)
        ensures
            s@ == if self.cipher_blocks@.len() == 0 {
                NO_DATA_PLAIN@
            } else if self.last_action@ == ACTION_ENCRYPT@ || self.last_action@ == ACTION_DECRYPT@ {
                binary_view(chunk@)
            } else {
                NO_PLAINTEXT_YET@
            },
    {
        if self.cipher_blocks.len() == 0 {
            return String::from_str(NO_DATA_PLAIN);
        }
        match self.plaintext_source_path() {
            Some(_) => format_binary_view(chunk),
            None => String::from_str(NO_PLAINTEXT_YET),
        }
    }
}

} // verus!
