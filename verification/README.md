# textcrypt

Two toy text ciphers with their inverses, proved in Verus, and a terminal form
to drive them.

* The default cipher writes the alphabet position of each upper-case letter,
  shifted by the key, in decimal and spells every digit as a letter (`0` is
  `A`, ..., `9` is `J`); other characters pass through a list of marks. The
  ASCII cipher writes the low byte of each character, shifted by the key, in
  upper-case hexadecimal. Both run `recursion` rounds.
* Decrypting with the same key and recursion undoes encrypting whenever every
  shifted value keeps exactly two digits and, for the default cipher, the
  digits that decryption writes in each round number at most `i32::MAX`; for
  the default cipher this holds for every key from 10 to 74 on texts whose
  intermediate forms have at most `i32::MAX / 2` characters. Re-encrypting one
  round of ASCII decryption gives back a text of canonical hex pairs
  (`src/laws.rs`).

Layout:

* `src/chars.rs`, `src/numeric.rs`: characters, digits, number parsing and
  trimming.
* `src/encryption.rs`: `encrypt`, `decrypt`, `ascii_encrypt`, `ascii_decrypt`,
  their `_checked` forms that return `None` where the plain forms may not be
  called, and the specifications they meet.
* `src/laws.rs`: the round-trip laws and what cipher texts are made of.
* `src/editor.rs`, `src/request.rs`: the rules of the form (focus, editing at
  byte offsets, the scroll of the input box) and what a submitted form asks
  for.
* `app/main.rs`: the terminal program (crossterm, tui, tinyfiledialogs).
* `tests/`: tests of all of the above.
