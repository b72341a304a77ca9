# crypto_labs

Three small cipher tools with machine-checked contracts:

- text ciphers: the decimation cipher on the English alphabet and the
  Vigenère cipher on the Russian alphabet (`decimation`, `vigenere`);
- a stream cipher on files, driven by a 30-bit linear feedback shift
  register (`lfsr`);
- textbook RSA on single bytes with 16-bit ciphertext blocks (`rsa`), with
  the number theory behind it (`number_theory`: Euclid, Bézout, Fermat's
  little theorem, the Chinese remainder step and RSA correctness).

`src/` is the library, verified with Verus: every public function states
what it returns, and the round-trip laws of the three ciphers are proved
there (`lemma_decimation_round_trip`, `lemma_vigenere_round_trip`,
`lemma_keystream_involution`, `lemma_bytes_round_trip`,
`lemma_build_then_round_trip`). The state of each window and what its
controls do (`cipher_app`, `stream_app`, `rsa_app`, `paging`, `display`)
are verified too.

`app/` holds the graphical windows (eframe) and the file handling around the
library; run it with `lfsr` or `rsa` as first argument for the file ciphers,
with no argument for the text ciphers. `tests/` runs the library on concrete
values.
