# emailbook

A minimalistic address book for e-mails only, written in Verus: the library
in `src/` is verified, the command-line program in `app/` is ordinary Rust
around it (arguments, the address-book file, standard input and output).

Entries are lines of text, either a bare mailbox (`John Doe <john@example.com>`)
or a keyed entry (`jd : John Doe <john@example.com>`).

## Layout

- `src/text.rs` — character sequences: searching, prefixes, trimming, lines;
  the std string operations used (`to_lowercase`, `char::is_whitespace`).
- `src/sanitize.rs` — normalization of one mailbox, as a scan over its
  characters.
- `src/mailbox.rs` — quote toggling, splitting a header value at unquoted
  commas, quoted display names, membership in a list.
- `src/mime.rs` — MIME encoded words: finding them, Q decoding, Base64
  (`base64`) and charset conversion (`encoding_rs`).
- `src/search.rs` — matching entries by alias and by value.
- `src/headers.rs` — which header fields to read, and their values with
  folded lines joined.
- `src/book.rs` — the address book: adding, searching, removing, reading and
  writing its text, collecting mailboxes from headers.

Every public function states its result exactly in its `ensures`, over the
spec functions of these modules. Proof functions state the library's laws,
among them: toggling quotes twice gives a mailbox back; joining the pieces of
a split header value gives the value back; a combined search lists each
matching entry once; collecting mailboxes only appends entries that were not
there; a book written to text and read back is unchanged.

## Running

```sh
cargo build --release
cargo test
```
