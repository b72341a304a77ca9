//! The decisions of the stream-cipher window: the seed of the register and
//! the status shown while a file is processed.
use crate::chars::{binary_value, is_bit_char, parse_binary_u64, parsed_binary_u64};
use crate::lfsr::LFSR;
use crate::paging::ChunkView;
use crate::text::{decimal, push_decimal, push_str};
use vstd::prelude::*;

verus! {

/// The number of register bits that the seed field holds.
pub const SEED_BITS: usize = 30;

pub const MSG_PROCESSING: &'static str = "Шифрование...";

pub const MSG_READY: &'static str = "Готов к работе";

pub const MSG_FILE_NOT_FOUND: &'static str = "Ошибка: Файл не найден";

pub const MSG_INPUT_EMPTY: &'static str = "Ошибка: Входной файл пуст";

pub const MSG_DONE: &'static str = "✅ Готово!";

pub const MSG_FILE_EMPTY: &'static str = "❌ Файл пуст";

pub const LABEL_DONE: &'static str = "✅ Готово";

pub const LABEL_IDLE: &'static str = "💤 Ожидание";

/// The seed field as the window opens: thirty ones.
pub const DEFAULT_SEED: &'static str = "111111111111111111111111111111";

/// The binary digits of a seed field, at most 30 of them.
pub open spec fn seed_digits(s: Seq<char>) -> Seq<char> {
    let bits = s.filter(|c: char| is_bit_char(c));
    if bits.len() > 30 {
        bits.take(30)
    } else {
        bits
    }
}

/// The register that a seed field gives: its binary value, or 0 when it is
/// not a binary number.
pub open spec fn seed_register_spec(s: Seq<char>) -> u64 {
    match parsed_binary_u64(s) {
        Some(v) => v,
        None => 0,
    }
}

/// The status while a file of `len` bytes is processed.
pub open spec fn processing_message(len: u64, chunk_size: u64) -> Seq<char> {
    if len < chunk_size {
        "Шифрование малого файла ("@ + decimal(len as nat) + " байт)..."@
    } else {
        MSG_PROCESSING@
    }
}

/// Keeps only the binary digits of the seed field, and at most 30 of them.
pub fn sanitize_seed_input(seed: &mut String)
    ensures
        final(seed)@ == seed_digits(old(seed)@),
{
    let chars = crate::text::chars_of(seed.as_str());
    let ghost before = seed@;
    let mut kept: Vec<char> = Vec::new();
    for i in 0..chars.len()
        invariant
            chars@ == before,
            kept@ == before.take(i as int).filter(|c: char| is_bit_char(c)),
    {
        proof {
            assert(before.take(i + 1).drop_last() =~= before.take(i as int));
            reveal_with_fuel(Seq::filter, 1);
        }
        if chars[i] == '0' || chars[i] == '1' {
            kept.push(chars[i]);
        }
    }
    proof {
        assert(before.take(before.len() as int) =~= before);
    }
    if kept.len() > SEED_BITS {
        kept.truncate(SEED_BITS);
    }
    *seed = crate::text::string_of(&kept);
}

/// The register value that the seed field gives (0 when it is not binary).
pub fn seed_register(seed: &str) -> (r: u64)
    ensures
        r == seed_register_spec(seed@),
        0 < seed@.len() <= 64 && crate::chars::all_bits(seed@) ==> r == binary_value(seed@),
{
    proof {
        if 0 < seed@.len() <= 64 && crate::chars::all_bits(seed@) {
            crate::chars::lemma_parse_binary(seed@);
        }
    }
    match parse_binary_u64(seed) {
        Some(v) => v,
        None => 0,
    }
}

/// The default register with the seed's value in place of its state.
pub fn lfsr_with_seed(seed: &str) -> (l: LFSR)
    ensures
        l.register == seed_register_spec(seed@),
        l.mask == 0x2000_C001,
        l.size == 30,
{
    let d = LFSR::default();
    LFSR { register: seed_register(seed), mask: d.mask, size: d.size }
}

/// The status while a file of `len` bytes is processed.
pub fn processing_status(len: u64, chunk_size: u64) -> (s: String)
    ensures
        s@ == processing_message(len, chunk_size),
{
    if len < chunk_size {
        let mut s = String::new();
        push_str(&mut s, "Шифрование малого файла (");
        push_decimal(&mut s, len);
        push_str(&mut s, " байт)...");
        s
    } else {
        String::from_str(MSG_PROCESSING)
    }
}

/// The contents of the stream-cipher window.
pub struct StreamApp {
    pub seed_input: String,
    pub input_path: String,
    pub output_path: String,
    pub key_path: String,
    pub file_size: u64,
    pub view: ChunkView,
    pub status_message: String,
}

/// Two window states agree on the fields and the view position.
pub open spec fn same_fields(a: StreamApp, b: StreamApp) -> bool {
    &&& a.seed_input == b.seed_input
    &&& a.input_path == b.input_path
    &&& a.output_path == b.output_path
    &&& a.key_path == b.key_path
    &&& a.view == b.view
}

/// The status once processing has ended, given the file's length and the
/// bytes processed: done, an empty file, or the status as it was.
pub open spec fn finished_message(len: u64, progress: u64, before: Seq<char>) -> Seq<char> {
    if progress >= len && len > 0 {
        MSG_DONE@
    } else if len == 0 {
        MSG_FILE_EMPTY@
    } else {
        before
    }
}

/// The label beside the pager: the progress while processing, then whether
/// the whole file was processed.
pub open spec fn progress_label_spec(processing: bool, progress: u64, len: u64) -> Seq<char> {
    if processing {
        "Обработано: "@ + decimal(progress as nat) + " / "@ + decimal(len as nat) + " байт"@
    } else if len > 0 && progress >= len {
        LABEL_DONE@
    } else {
        LABEL_IDLE@
    }
}

impl Default for StreamApp {
    /// The window as it opens: a seed of thirty ones, files `input.txt`,
    /// `output.bin` and `.temp_key.bin`, chunks of 256 from offset 0.
    fn default() -> (app: StreamApp)
        ensures
            app.seed_input@ == DEFAULT_SEED@,
            app.input_path@ == "input.txt"@,
            app.output_path@ == "output.bin"@,
            app.key_path@ == ".temp_key.bin"@,
            app.file_size == 0,
            app.view.current_offset == 0,
            app.view.chunk_size == 256,
            app.status_message@ == MSG_READY@,
    {
        StreamApp {
            seed_input: String::from_str(DEFAULT_SEED),
            input_path: String::from_str("input.txt"),
            output_path: String::from_str("output.bin"),
            key_path: String::from_str(".temp_key.bin"),
            file_size: 0,
            view: ChunkView { current_offset: 0, chunk_size: 256 },
            status_message: String::from_str(MSG_READY),
        }
    }
}

impl StreamApp {
    /// The start button, given the input file's length (`None` when it cannot
    /// be read): an empty or missing file is refused with a message; otherwise
    /// the file's length is kept, the status says that processing runs, and
    /// the register to run is returned, seeded from the seed field.
    pub fn start_processing(&mut self, input_len: Option<u64>) -> (lfsr: Option<LFSR>)
        ensures
            same_fields(*old(self), *final(self)),
            match input_len {
                None => {
                    &&& lfsr is None
                    &&& final(self).status_message@ == MSG_FILE_NOT_FOUND@
                    &&& final(self).file_size == old(self).file_size
                },
                Some(n) => if n == 0 {
                    &&& lfsr is None
                    &&& final(self).status_message@ == MSG_INPUT_EMPTY@
                    &&& final(self).file_size == old(self).file_size
                } else {
                    &&& lfsr matches Some(l) && l.register == seed_register_spec(
                        old(self).seed_input@,
                    ) && l.mask == 0x2000_C001 && l.size == 30
                    &&& final(self).file_size == n
                    &&& final(self).status_message@ == processing_message(
                        n,
                        old(self).view.chunk_size,
                    )
                },
            },
    {
        match input_len {
            None => {
                self.status_message = String::from_str(MSG_FILE_NOT_FOUND);
                None
            },
            Some(n) => {
                if n == 0 {
                    self.status_message = String::from_str(MSG_INPUT_EMPTY);
                    return None;
                }
                self.file_size = n;
                let lfsr = lfsr_with_seed(self.seed_input.as_str());
                self.status_message = processing_status(n, self.view.chunk_size);
                Some(lfsr)
            },
        }
    }

    /// Processing has ended, given the input file's length now (0 when it
    /// cannot be read) and the bytes processed: the length is kept, a view
    /// past the end returns to the start, and the status says how it went.
    pub fn finish_processing(&mut self, file_len: u64, progress: u64)
        ensures
            final(self).seed_input == old(self).seed_input,
            final(self).input_path == old(self).input_path,
            final(self).output_path == old(self).output_path,
            final(self).key_path == old(self).key_path,
            final(self).file_size == file_len,
            final(self).view.chunk_size == old(self).view.chunk_size,
            final(self).view.current_offset == if old(self).view.current_offset >= file_len
                && file_len > 0 {
                0
            } else {
                old(self).view.current_offset
            },
            final(self).status_message@ == finished_message(
                file_len,
                progress,
                old(self).status_message@,
            ),
    {
        self.file_size = file_len;
        if self.view.current_offset >= self.file_size && self.file_size > 0 {
            self.view.current_offset = 0;
        }
        if progress >= self.file_size && self.file_size > 0 {
            self.status_message = String::from_str(MSG_DONE);
        } else if self.file_size == 0 {
            self.status_message = String::from_str(MSG_FILE_EMPTY);
        }
    }

    /// The label beside the pager.
    pub fn progress_label(&self, processing: bool, progress: u64) -> (s: String)
        ensures
            s@ == progress_label_spec(processing, progress, self.file_size),
    {
        if processing {
            let mut s = String::new();
            push_str(&mut s, "Обработано: ");
            push_decimal(&mut s, progress);
            push_str(&mut s, " / ");
            push_decimal(&mut s, self.file_size);
            push_str(&mut s, " байт");
            s
        } else if self.file_size > 0 && progress >= self.file_size {
            String::from_str(LABEL_DONE)
        } else {
            String::from_str(LABEL_IDLE)
        }
    }
}

} // verus!
