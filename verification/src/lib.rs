//! A minimalistic address book for e-mails only.
//!
//! Entries are lines of text: a bare mailbox (`John Doe <john@example.com>`)
//! or a keyed entry (`jd : John Doe <john@example.com>`). The library adds
//! entries, searches them by alias and by value, removes them, and collects
//! mailboxes from the `From`/`To`/`Cc`/`Bcc` headers of e-mails: MIME encoded
//! words are decoded, mailboxes are normalized, no-reply addresses are
//! ignored, and duplicates are skipped.
//!
//! Modules:
//! - `text`: character-sequence vocabulary (search, trim, lines);
//! - `sanitize`: normalization of one mailbox;
//! - `mailbox`: quote toggling, splitting at unquoted commas, membership;
//! - `mime`: encoded words, Q and Base64 decoding;
//! - `search`: matching entries against a query;
//! - `headers`: the header fields to read and their values;
//! - `book`: the address book itself.

pub mod book;
pub mod headers;
pub mod mailbox;
pub mod mime;
pub mod sanitize;
pub mod search;
pub mod text;

pub use book::{EmailBook, MailboxOutcome};
pub use headers::{starts_with_any, ParseSource};
pub use mailbox::{
    mailbox_in_list, split_at_unquoted_commas, strip_unnecessary_display_quotes, toggle_quotes,
};
pub use mime::{
    decode_encoded_words, decode_q_encoded_string, decode_q_encoded_string_charset,
    find_encoded_word, try_decode_encoded_words,
};
pub use sanitize::sanitize_mailbox;
pub use search::{alias_slice_is_ok, check_alias, check_value, display_value, value_slice_is_ok};
