# b64d

A Base64 file decoder whose decoding logic is proved correct with Verus.

Drop a Base64 file on the program (or name it on the command line) and the
decoded bytes are written next to it as `<name>-decoded.<ext>`, or
`<name>-decoded(N).<ext>` when that name is taken. The input may be UTF-8
(with or without a byte order mark) or UTF-16 (LE or BE, with or without a
byte order mark), wrapped over lines, inside a PEM block or a Data URL, in the
standard or the URL-safe alphabet.

## Layout

- `src/` — the verified library.
  - `decoder.rs`: Base64 decoding, with its specification (`decode_spec`) and
    the laws that decoding inverts encoding, treats both alphabets alike, stops
    at the first `=` and works block by block.
  - `text_codec.rs`: text encoding detection and decoding (UTF-8, UTF-16LE/BE),
    with round-trip laws for each encoding.
  - `extractor.rs`: finding the Base64 payload in a text (PEM, Data URL,
    white space) and the density check that refuses files that are not Base64,
    with the laws that inserted white space changes nothing and that the
    extractor keeps exactly the characters the decoder reads.
  - `path_resolver.rs`: the output file name and the choice of the first free one.
  - `app.rs`: what a run does with its command line, the decoding of a file's
    contents, and the law that wrapped Base64 of any bytes decodes back to them.
  - `platform/`: the console detection used where the platform has none.
- `app/` — the program: file and console I/O, native dialogs, messages.
- `tests/` — tests of the library.
