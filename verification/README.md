# ciphers

Classical ciphers over a user-chosen alphabet, verified with Verus.

- `src/util/` — Rust's truncating `/` and `%` as mathematical functions, `positive_mod`, and
  the extended Euclidean algorithm with modular inverses (`util/inverse.rs`), with Bezout's
  identity and the gcd property proved, and exact conditions under which no `isize` operation
  overflows.
- `src/ciphers/mod.rs` — `CharacterSet` (an alphabet without repeats and its lookup tables),
  the error type, and the menu choices with their labels.
- `src/ciphers/affine_cipher.rs`, `affine_recursive_cipher.rs`, `substitution_cipher.rs` — the
  three ciphers, each with a contract that gives the output character by character, a decider
  for the inputs on which its arithmetic stays in range, and a proof of what deciphering does to
  an enciphered text.
- `src/ciphers/text.rs` — built-in alphabets (optionally shuffled with `rand`), the text of a
  file (decoded, lowercased, filtered) and decimal key parsing.
- `app/` — the interactive program: `inquire` menus and prompts, file I/O, `fern` logging.
- `tests/` — executable tests of the library.
