//! Classical ciphers with machine-checked contracts.
pub mod number_theory;
pub mod text;
pub mod rsa;
pub mod chars;
pub mod alphabet;
pub mod decimation;
pub mod lfsr;
pub mod vigenere;
pub mod display;
pub mod paging;
pub mod cipher_app;
pub mod rsa_app;
pub mod stream_app;
