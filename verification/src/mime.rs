//! MIME encoded words (`=?charset?encoding?text?=`, RFC 2047) in header
//! values: finding them, decoding Q-encoded and Base64 text, and replacing
//! them by their decoded form.
use vstd::prelude::*;
use vstd::utf8::{decode_utf8, encode_utf8, is_continuation_byte, valid_utf8};
use base64::Engine;
use crate::text::{
    append_chars, chars_of, contains_in, contains_seq, lowercase, lowercase_chars, slice_chars,
    string_from_chars,
};

verus! {

// ---------------------------------------------------------------------------
// Outside crates: charset decoding (encoding_rs) and Base64 (base64)
// ---------------------------------------------------------------------------

#[verifier::external_type_specification]
#[verifier::external_body]
pub struct ExEncoding(encoding_rs::Encoding);

#[verifier::external_type_specification]
#[verifier::external_body]
pub struct ExDecodeError(base64::DecodeError);

/// Whether `encoding_rs::Encoding::for_label` recognises `label` (a label of
/// the WHATWG Encoding Standard, after ASCII-lowercasing and trimming).
pub uninterp spec fn charset_label_known(label: Seq<u8>) -> bool;

/// The text that `Encoding::decode` produces from `raw` with the encoding
/// that `Encoding::for_label` gives for `label` (BOM sniffing included,
/// malformed sequences replaced by U+FFFD).
pub uninterp spec fn charset_decoded(label: Seq<u8>, raw: Seq<u8>) -> Seq<char>;

/// What the STANDARD Base64 engine's `decode` gives for `text`: the decoded
/// bytes, or `None` when `text` is not canonical padded Base64.
pub uninterp spec fn base64_decoded(text: Seq<u8>) -> Option<Seq<u8>>;

/// The longest input that `Encoding::decode` is given here. The decoder
/// reserves an output buffer of up to three bytes per input byte plus a few,
/// and such a reservation panics beyond `isize::MAX` bytes; inputs of at
/// most `usize::MAX / 8` bytes stay well below that.
pub open spec fn decode_limit() -> nat {
    (usize::MAX / 8) as nat
}

/// An encoding found by its label, with the label it was found by.
pub struct Charset {
    encoding: &'static encoding_rs::Encoding,
    label: Vec<u8>,
}

impl Charset {
    /// The label this encoding was found by.
    pub closed spec fn label(&self) -> Seq<u8> {
        self.label@
    }
}

/// `encoding_rs::Encoding::for_label`. Trusted: it finds an encoding exactly
/// for the labels that `charset_label_known` holds of; which labels those
/// are is not stated.
#[verifier::external_body]
fn charset_for_label(label: &[u8]) -> (r: Option<Charset>)
    ensures
        r is Some <==> charset_label_known(label@),
        r matches Some(c) ==> c.label() == label@,
{
    encoding_rs::Encoding::for_label(label).map(|encoding| Charset { encoding, label: label.to_vec() })
}

/// `encoding_rs::Encoding::decode`, keeping only the text. Trusted: the
/// result is `charset_decoded` of the label the encoding was found by and of
/// the input; the decoding tables themselves are not stated. Inputs longer
/// than `decode_limit()` are left out: for long inputs the decoder's
/// buffer reservation panics.
#[verifier::external_body]
fn decode_with_charset(charset: &Charset, raw: &[u8]) -> (r: String)
    requires
        raw@.len() <= decode_limit(),
    ensures
        r@ == charset_decoded(charset.label(), raw@),
{
    let (text, _, _) = charset.encoding.decode(raw);
    text.into_owned()
}

/// `base64::engine::general_purpose::STANDARD.decode`. Trusted: it succeeds
/// exactly when `base64_decoded` is `Some`, with those bytes; the alphabet
/// and padding rules are not stated.
#[verifier::external_body]
fn base64_decode(text: &[u8]) -> (r: Result<Vec<u8>, base64::DecodeError>)
    ensures
        match r {
            Ok(bytes) => base64_decoded(text@) == Some(bytes@),
            Err(_) => base64_decoded(text@) is None,
        },
{
    base64::engine::general_purpose::STANDARD.decode(text)
}

/// `String::from_utf8`, its error dropped. Trusted: it succeeds exactly when
/// `bytes` are valid UTF-8, with the characters they encode.
#[verifier::external_body]
fn string_from_utf8(bytes: Vec<u8>) -> (r: Option<String>)
    ensures
        r is Some <==> valid_utf8(bytes@),
        r matches Some(s) ==> s@ == decode_utf8(bytes@),
{
    String::from_utf8(bytes).ok()
}

// ---------------------------------------------------------------------------
// Q encoding
// ---------------------------------------------------------------------------

pub open spec fn is_hex_digit(b: u8) -> bool {
    (0x30 <= b <= 0x39) || (0x41 <= b <= 0x46) || (0x61 <= b <= 0x66)
}

pub open spec fn hex_digit_value(b: u8) -> int {
    if 0x30 <= b <= 0x39 {
        b - 0x30
    } else if 0x41 <= b <= 0x46 {
        b - 0x41 + 10
    } else {
        b - 0x61 + 10
    }
}

/// What `u8::from_str_radix(s, 16)` gives for the two-byte string `[b1, b2]`:
/// an optional `+` sign followed by hexadecimal digits.
pub open spec fn hex_pair_value(b1: u8, b2: u8) -> Option<u8> {
    if is_hex_digit(b1) && is_hex_digit(b2) {
        Some((hex_digit_value(b1) * 16 + hex_digit_value(b2)) as u8)
    } else if b1 == 0x2b && is_hex_digit(b2) {
        Some(hex_digit_value(b2) as u8)
    } else {
        None
    }
}

/// The ASCII upper-case form of a byte: `a` to `z` become `A` to `Z`.
pub open spec fn ascii_upper(b: u8) -> u8 {
    if 0x61 <= b <= 0x7a {
        (b - 0x20) as u8
    } else {
        b
    }
}

/// The hexadecimal digit for `d` (0 to 15): `0` to `9`, then `a` to `f` in
/// lower case or `A` to `F` in upper case.
pub open spec fn hex_digit_char(d: int, lower: bool) -> u8 {
    if d < 10 {
        (0x30 + d) as u8
    } else if lower {
        (0x61 + d - 10) as u8
    } else {
        (0x41 + d - 10) as u8
    }
}

/// Hex escapes are read without regard to case: two bytes give the same
/// value as their upper-case forms.
pub proof fn hex_escapes_ignore_case(b1: u8, b2: u8)
    ensures
        hex_pair_value(b1, b2) == hex_pair_value(ascii_upper(b1), ascii_upper(b2)),
{
}

/// Two hexadecimal digits, each in either case, stand for the byte
/// `16 * d1 + d2`, and the Q escape `=` followed by them decodes to it.
pub proof fn hex_escape_value(d1: int, d2: int, lower1: bool, lower2: bool)
    requires
        0 <= d1 < 16,
        0 <= d2 < 16,
    ensures
        hex_pair_value(hex_digit_char(d1, lower1), hex_digit_char(d2, lower2)) == Some(
            (16 * d1 + d2) as u8,
        ),
        q_raw(seq![0x3du8, hex_digit_char(d1, lower1), hex_digit_char(d2, lower2)]) == seq![
            (16 * d1 + d2) as u8,
        ],
{
    let x = hex_digit_char(d1, lower1);
    let y = hex_digit_char(d2, lower2);
    assert(hex_digit_value(x) == d1);
    assert(hex_digit_value(y) == d2);
    let b = seq![0x3du8, x, y];
    let byte = (16 * d1 + d2) as u8;
    assert(q_scan(b, 3, seq![byte]) == seq![byte]);
    assert(q_scan(b, 0, Seq::empty()) == q_scan(b, 3, Seq::<u8>::empty().push(byte)));
    assert(Seq::<u8>::empty().push(byte) =~= seq![byte]);
}

/// The raw bytes that the Q text `b[i..]` decodes to, appended to `raw`:
/// `=XY` is the byte with hex value `XY` (`?` when that is not hex), `_` is a
/// space, and every other byte stands for itself.
pub open spec fn q_scan(b: Seq<u8>, i: int, raw: Seq<u8>) -> Seq<u8>
    decreases b.len() - i,
{
    if 0 <= i < b.len() {
        if b[i] == 0x3d && i + 2 < b.len() {
            let byte = match hex_pair_value(b[i + 1], b[i + 2]) {
                Some(x) => x,
                None => 0x3fu8,
            };
            q_scan(b, i + 3, raw.push(byte))
        } else if b[i] == 0x5f {
            q_scan(b, i + 1, raw.push(0x20u8))
        } else {
            q_scan(b, i + 1, raw.push(b[i]))
        }
    } else {
        raw
    }
}

/// The raw bytes of the Q text `b`.
pub open spec fn q_raw(b: Seq<u8>) -> Seq<u8> {
    q_scan(b, 0, Seq::empty())
}

/// Some `=` escape of the Q text `b[i..]` has its two-byte hex slice end
/// inside a multi-byte character, where slicing the `str` would panic.
pub open spec fn q_split_char(b: Seq<u8>, i: int) -> bool
    decreases b.len() - i,
{
    if 0 <= i < b.len() {
        if b[i] == 0x3d && i + 2 < b.len() {
            (i + 3 < b.len() && is_continuation_byte(b[i + 3])) || q_split_char(b, i + 3)
        } else {
            q_split_char(b, i + 1)
        }
    } else {
        false
    }
}

/// The Q text `s` can be decoded: no `=` escape splits a character.
pub open spec fn q_decodable(s: Seq<char>) -> bool {
    !q_split_char(encode_utf8(s), 0)
}

/// The raw bytes of the Q text `s` fit the decoder of `charset`: a bound
/// that matters only when the charset's label is known, since otherwise no
/// charset decoder runs.
pub open spec fn q_fits_decoder(s: Seq<char>, charset: Seq<char>) -> bool {
    charset_label_known(encode_utf8(charset)) ==> q_raw(encode_utf8(s)).len() <= decode_limit()
}

/// The text that the Q text `s` decodes to in the charset named `charset`:
/// the raw bytes decoded by that charset when its label is known, otherwise
/// taken as UTF-8, otherwise `s` itself.
pub open spec fn q_decoded(s: Seq<char>, charset: Seq<char>) -> Seq<char> {
    let raw = q_raw(encode_utf8(s));
    let label = encode_utf8(charset);
    if charset_label_known(label) {
        charset_decoded(label, raw)
    } else if valid_utf8(raw) {
        decode_utf8(raw)
    } else {
        s
    }
}

fn hex_digit(b: u8) -> (r: Option<u8>)
    ensures
        r is Some <==> is_hex_digit(b),
        r matches Some(v) ==> v as int == hex_digit_value(b) && v < 16,
{
    if 0x30 <= b && b <= 0x39 {
        Some(b - 0x30)
    } else if 0x41 <= b && b <= 0x46 {
        Some(b - 0x41 + 10)
    } else if 0x61 <= b && b <= 0x66 {
        Some(b - 0x61 + 10)
    } else {
        None
    }
}

fn hex_pair(b1: u8, b2: u8) -> (r: Option<u8>)
    ensures
        r == hex_pair_value(b1, b2),
{
    match (hex_digit(b1), hex_digit(b2)) {
        (Some(h), Some(l)) => Some(h * 16 + l),
        (None, Some(l)) => if b1 == 0x2b {
            Some(l)
        } else {
            None
        },
        _ => None,
    }
}

/// The raw bytes of the Q text `b`, or `None` where an escape splits a
/// character.
fn q_raw_bytes(b: &[u8]) -> (r: Option<Vec<u8>>)
    ensures
        r is None <==> q_split_char(b@, 0),
        r matches Some(v) ==> v@ == q_raw(b@) && v@.len() <= b@.len(),
{
    let n = b.len();
    let mut raw: Vec<u8> = Vec::with_capacity(n);
    let mut i: usize = 0;
    while i < n
        invariant
            n == b.len(),
            i <= n,
            raw@.len() <= i,
            q_scan(b@, i as int, raw@) == q_raw(b@),
            q_split_char(b@, i as int) == q_split_char(b@, 0),
        decreases n - i,
    {
        if b[i] == 0x3d && i + 1 < n && i + 2 < n {
            if i + 3 < n && 0x80 <= b[i + 3] && b[i + 3] <= 0xbf {
                return None;
            }
            match hex_pair(b[i + 1], b[i + 2]) {
                Some(x) => raw.push(x),
                None => raw.push(0x3f),
            }
            i = i + 3;
        } else if b[i] == 0x5f {
            raw.push(0x20);
            i = i + 1;
        } else {
            raw.push(b[i]);
            i = i + 1;
        }
    }
    Some(raw)
}

/// The text of the Q text `s` from its raw bytes in `charset`, or `None`
/// when the charset's label is known and the raw bytes are too long for its
/// decoder.
fn q_text_from_raw(s: &str, raw: Vec<u8>, charset: &str) -> (r: Option<String>)
    requires
        raw@ == q_raw(encode_utf8(s@)),
    ensures
        r is Some <==> q_fits_decoder(s@, charset@),
        r matches Some(t) ==> t@ == q_decoded(s@, charset@),
{
    match charset_for_label(charset.as_bytes()) {
        Some(cs) => {
            if raw.len() > usize::MAX / 8 {
                return None;
            }
            Some(decode_with_charset(&cs, raw.as_slice()))
        },
        None => match string_from_utf8(raw) {
            Some(t) => Some(t),
            None => Some(s.to_owned()),
        },
    }
}

/// Decodes a Quoted-Printable encoded string for an arbitrary charset.
///
/// The charset's decoder from `encoding_rs` does the conversion when its
/// label is known; otherwise the bytes are taken as UTF-8, and when they are
/// not valid UTF-8 the input comes back unchanged.
pub fn decode_q_encoded_string_charset(s: &str, charset: &str) -> (r: String)
    requires
        q_decodable(s@),
        q_fits_decoder(s@, charset@),
    ensures
        r@ == q_decoded(s@, charset@),
{
    let raw = q_raw_bytes(s.as_bytes()).unwrap();
    q_text_from_raw(s, raw, charset).unwrap()
}

/// Decodes a Quoted-Printable encoded string (UTF-8 charset).
pub fn decode_q_encoded_string(s: &str) -> (r: String)
    requires
        q_decodable(s@),
        q_raw(encode_utf8(s@)).len() <= decode_limit(),
    ensures
        r@ == q_decoded(s@, "utf-8"@),
{
    decode_q_encoded_string_charset(s, "utf-8")
}

// ---------------------------------------------------------------------------
// Finding encoded words
// ---------------------------------------------------------------------------

/// A character allowed in the charset of an encoded word: ASCII letters and
/// digits, and `-`.
pub open spec fn is_charset_char(c: char) -> bool {
    ('a' <= c <= 'z') || ('A' <= c <= 'Z') || ('0' <= c <= '9') || c == '-'
}

/// A letter naming an encoding: `b` or `q`, in either case.
pub open spec fn is_encoding_letter(c: char) -> bool {
    c == 'b' || c == 'B' || c == 'q' || c == 'Q'
}

/// The lowercase byte of an encoding letter.
pub open spec fn encoding_byte(c: char) -> u8 {
    if c == 'b' || c == 'B' {
        0x62u8
    } else {
        0x71u8
    }
}

/// The first position at or after `k` that does not hold a charset character.
pub open spec fn charset_end(s: Seq<char>, k: int) -> int
    decreases s.len() - k,
{
    if 0 <= k < s.len() && is_charset_char(s[k]) {
        charset_end(s, k + 1)
    } else {
        k
    }
}

/// The first position at or after `k` that holds `?`, or a position past the end.
pub open spec fn text_end(s: Seq<char>, k: int) -> int
    decreases s.len() - k,
{
    if 0 <= k < s.len() && s[k] != '?' {
        text_end(s, k + 1)
    } else {
        k
    }
}

pub proof fn lemma_charset_end(s: Seq<char>, k: int)
    requires
        0 <= k <= s.len(),
    ensures
        k <= charset_end(s, k) <= s.len(),
    decreases s.len() - k,
{
    if 0 <= k < s.len() && is_charset_char(s[k]) {
        lemma_charset_end(s, k + 1);
    }
}

pub proof fn lemma_text_end(s: Seq<char>, k: int)
    requires
        0 <= k <= s.len(),
    ensures
        k <= text_end(s, k) <= s.len(),
    decreases s.len() - k,
{
    if 0 <= k < s.len() && s[k] != '?' {
        lemma_text_end(s, k + 1);
    }
}

/// An encoded word found in a string: where it starts, its charset, the
/// lowercase byte of its encoding letter, its text, and where it ends.
pub type EncodedWordView = (int, Seq<char>, u8, Seq<char>, int);

/// The first encoded word `=?charset?e?text?=` that a left-to-right search
/// from `i` finds. After a candidate `=?` fails, the search goes on from the
/// character at which it failed.
pub open spec fn find_word_from(s: Seq<char>, i: int) -> Option<EncodedWordView>
    decreases s.len() - i,
{
    if 0 <= i && i + 2 < s.len() {
        if !(s[i] == '=' && s[i + 1] == '?') {
            find_word_from(s, i + 1)
        } else {
            let cs_start = i + 2;
            let cs_end = charset_end(s, cs_start);
            proof {
                lemma_charset_end(s, cs_start);
            }
            if cs_end >= s.len() || s[cs_end] != '?' || cs_end == cs_start {
                find_word_from(s, cs_end)
            } else {
                let e = cs_end + 1;
                if e >= s.len() || !is_encoding_letter(s[e]) {
                    find_word_from(s, e)
                } else if e + 1 >= s.len() || s[e + 1] != '?' {
                    find_word_from(s, e + 1)
                } else {
                    let t_start = e + 2;
                    let t_end = text_end(s, t_start);
                    proof {
                        lemma_text_end(s, t_start);
                    }
                    if t_end + 1 >= s.len() || s[t_end] != '?' || s[t_end + 1] != '=' {
                        find_word_from(s, t_end)
                    } else {
                        Some(
                            (
                                i,
                                s.subrange(cs_start, cs_end),
                                encoding_byte(s[e]),
                                s.subrange(t_start, t_end),
                                t_end + 2,
                            ),
                        )
                    }
                }
            }
        }
    } else {
        None
    }
}

/// The first encoded word in `s`.
pub open spec fn first_encoded_word(s: Seq<char>) -> Option<EncodedWordView> {
    find_word_from(s, 0)
}

/// What an encoded word found in a string of length `n` satisfies.
pub open spec fn word_well_placed(w: EncodedWordView, n: int) -> bool {
    0 <= w.0 < w.4 <= n
}

pub proof fn lemma_find_word_placed(s: Seq<char>, i: int)
    requires
        0 <= i,
    ensures
        find_word_from(s, i) matches Some(w) ==> word_well_placed(w, s.len() as int) && w.0 >= i,
    decreases s.len() - i,
{
    if 0 <= i && i + 2 < s.len() {
        if !(s[i] == '=' && s[i + 1] == '?') {
            lemma_find_word_placed(s, i + 1);
        } else {
            let cs_start = i + 2;
            lemma_charset_end(s, cs_start);
            let cs_end = charset_end(s, cs_start);
            if cs_end >= s.len() || s[cs_end] != '?' || cs_end == cs_start {
                lemma_find_word_placed(s, cs_end);
            } else {
                let e = cs_end + 1;
                if e >= s.len() || !is_encoding_letter(s[e]) {
                    lemma_find_word_placed(s, e);
                } else if e + 1 >= s.len() || s[e + 1] != '?' {
                    lemma_find_word_placed(s, e + 1);
                } else {
                    lemma_text_end(s, e + 2);
                    let t_end = text_end(s, e + 2);
                    if t_end + 1 >= s.len() || s[t_end] != '?' || s[t_end + 1] != '=' {
                        lemma_find_word_placed(s, t_end);
                    }
                }
            }
        }
    }
}

/// `w` describes an encoded word `=?charset?e?text?=` standing in `s`: a
/// non-empty charset of charset characters, an encoding letter, and a text
/// without `?`.
pub open spec fn is_encoded_word_in(s: Seq<char>, w: EncodedWordView) -> bool {
    let (start, cs, enc, text, end) = w;
    let letter = s[start + cs.len() + 3];
    &&& 0 <= start && end <= s.len()
    &&& end == start + cs.len() + text.len() + 7
    &&& cs.len() > 0
    &&& forall|k: int| 0 <= k < cs.len() ==> is_charset_char(#[trigger] cs[k])
    &&& forall|k: int| 0 <= k < text.len() ==> #[trigger] text[k] != '?'
    &&& is_encoding_letter(letter)
    &&& enc == encoding_byte(letter)
    &&& s.subrange(start, end) == seq!['=', '?'] + cs + seq!['?', letter, '?'] + text + seq![
        '?',
        '=',
    ]
}

proof fn lemma_charset_end_chars(s: Seq<char>, k: int)
    requires
        0 <= k <= s.len(),
    ensures
        forall|j: int| k <= j < charset_end(s, k) ==> is_charset_char(#[trigger] s[j]),
    decreases s.len() - k,
{
    if 0 <= k < s.len() && is_charset_char(s[k]) {
        lemma_charset_end_chars(s, k + 1);
    }
}

proof fn lemma_text_end_chars(s: Seq<char>, k: int)
    requires
        0 <= k <= s.len(),
    ensures
        forall|j: int| k <= j < text_end(s, k) ==> #[trigger] s[j] != '?',
    decreases s.len() - k,
{
    if 0 <= k < s.len() && s[k] != '?' {
        lemma_text_end_chars(s, k + 1);
    }
}

proof fn lemma_find_word_is_word(s: Seq<char>, i: int)
    requires
        0 <= i,
    ensures
        find_word_from(s, i) matches Some(w) ==> is_encoded_word_in(s, w),
    decreases s.len() - i,
{
    if 0 <= i && i + 2 < s.len() {
        if !(s[i] == '=' && s[i + 1] == '?') {
            lemma_find_word_is_word(s, i + 1);
        } else {
            let cs_start = i + 2;
            lemma_charset_end(s, cs_start);
            lemma_charset_end_chars(s, cs_start);
            let cs_end = charset_end(s, cs_start);
            if cs_end >= s.len() || s[cs_end] != '?' || cs_end == cs_start {
                lemma_find_word_is_word(s, cs_end);
            } else {
                let e = cs_end + 1;
                if e >= s.len() || !is_encoding_letter(s[e]) {
                    lemma_find_word_is_word(s, e);
                } else if e + 1 >= s.len() || s[e + 1] != '?' {
                    lemma_find_word_is_word(s, e + 1);
                } else {
                    lemma_text_end(s, e + 2);
                    lemma_text_end_chars(s, e + 2);
                    let t_end = text_end(s, e + 2);
                    if t_end + 1 >= s.len() || s[t_end] != '?' || s[t_end + 1] != '=' {
                        lemma_find_word_is_word(s, t_end);
                    } else {
                        let cs = s.subrange(cs_start, cs_end);
                        let text = s.subrange(e + 2, t_end);
                        assert forall|k: int| 0 <= k < cs.len() implies is_charset_char(
                            #[trigger] cs[k],
                        ) by {
                            assert(cs[k] == s[cs_start + k]);
                        }
                        assert forall|k: int| 0 <= k < text.len() implies #[trigger] text[k] != '?' by {
                            assert(text[k] == s[e + 2 + k]);
                        }
                        assert(s.subrange(i, t_end + 2) =~= seq!['=', '?'] + cs + seq![
                            '?',
                            s[e],
                            '?',
                        ] + text + seq!['?', '=']);
                    }
                }
            }
        }
    }
}

/// What `find_encoded_word` finds is an encoded word standing in the string.
pub proof fn found_word_is_encoded_word(s: Seq<char>)
    ensures
        first_encoded_word(s) matches Some(w) ==> is_encoded_word_in(s, w),
{
    lemma_find_word_is_word(s, 0);
}

fn is_charset_char_exec(c: char) -> (r: bool)
    ensures
        r == is_charset_char(c),
{
    ('a' <= c && c <= 'z') || ('A' <= c && c <= 'Z') || ('0' <= c && c <= '9') || c == '-'
}

/// Finds the first MIME encoded word `=?charset?encoding?text?=` in `s`.
/// Returns `(match_start, charset, encoding_byte, text, match_end)`, the
/// positions counted in characters and the encoding byte lowercased.
pub fn find_encoded_word(s: &Vec<char>) -> (r: Option<(usize, String, u8, String, usize)>)
    ensures
        r is Some <==> first_encoded_word(s@) is Some,
        r matches Some(w) ==> ({
            let v = first_encoded_word(s@)->0;
            &&& w.0 as int == v.0
            &&& w.1@ == v.1
            &&& w.2 == v.2
            &&& w.3@ == v.3
            &&& w.4 as int == v.4
        }),
{
    let n = s.len();
    let mut i: usize = 0;
    while i < n && n - i > 2
        invariant
            n == s.len(),
            i <= n,
            find_word_from(s@, i as int) == first_encoded_word(s@),
        decreases n - i,
    {
        if !(s[i] == '=' && s[i + 1] == '?') {
            i = i + 1;
            continue;
        }
        let token_start = i;
        i = i + 2;
        let cs_start = i;
        proof {
            lemma_charset_end(s@, cs_start as int);
        }
        while i < n && is_charset_char_exec(s[i])
            invariant
                n == s.len(),
                cs_start <= i <= n,
                charset_end(s@, i as int) == charset_end(s@, cs_start as int),
            decreases n - i,
        {
            i = i + 1;
        }
        if i >= n || s[i] != '?' || cs_start == i {
            continue;
        }
        let charset = slice_chars(s, cs_start, i);
        i = i + 1;
        if i >= n || !(s[i] == 'b' || s[i] == 'B' || s[i] == 'q' || s[i] == 'Q') {
            continue;
        }
        let enc_byte: u8 = if s[i] == 'b' || s[i] == 'B' {
            0x62
        } else {
            0x71
        };
        i = i + 1;
        if i >= n || s[i] != '?' {
            continue;
        }
        i = i + 1;
        let text_start = i;
        proof {
            lemma_text_end(s@, text_start as int);
        }
        while i < n && s[i] != '?'
            invariant
                n == s.len(),
                text_start <= i <= n,
                text_end(s@, i as int) == text_end(s@, text_start as int),
            decreases n - i,
        {
            i = i + 1;
        }
        if i >= n || n - i < 2 || s[i] != '?' || s[i + 1] != '=' {
            continue;
        }
        let text = slice_chars(s, text_start, i);
        let end = i + 2;
        return Some((token_start, string_from_chars(charset), enc_byte, string_from_chars(text), end));
    }
    None
}

// ---------------------------------------------------------------------------
// Decoding every encoded word of a header value
// ---------------------------------------------------------------------------

/// What one round of decoding does to a string.
pub enum DecodeRound {
    /// Nothing (more) to decode: no `=?`, no encoded word, or invalid Base64.
    Done,
    /// The next encoded word cannot be decoded: a `=` escape of its Q text
    /// would cut a multi-byte character in two, or its text is too long for
    /// the charset decoder.
    Stuck,
    /// The string with its first encoded word replaced by its decoded text.
    Next(Seq<char>),
}

/// The text of a Base64 encoded word: its bytes decoded by the charset when
/// the lowercased charset is a known label, otherwise taken as UTF-8,
/// otherwise the encoded word itself (`word`).
pub open spec fn base64_word_text(charset_lower: Seq<char>, bytes: Seq<u8>, word: Seq<char>) -> Seq<char> {
    let label = encode_utf8(charset_lower);
    if charset_label_known(label) {
        charset_decoded(label, bytes)
    } else if valid_utf8(bytes) {
        decode_utf8(bytes)
    } else {
        word
    }
}

/// One round: find the first encoded word and replace it by its text.
pub open spec fn decode_round(r: Seq<char>) -> DecodeRound {
    if !contains_seq(r, seq!['=', '?']) {
        DecodeRound::Done
    } else {
        match first_encoded_word(r) {
            None => DecodeRound::Done,
            Some(w) => {
                let (start, charset, enc, text, end) = w;
                let cl = lowercase(charset);
                if enc == 0x62u8 {
                    match base64_decoded(encode_utf8(text)) {
                        None => DecodeRound::Done,
                        Some(bytes) => if charset_label_known(encode_utf8(cl)) && bytes.len()
                            > decode_limit() {
                            DecodeRound::Stuck
                        } else {
                            DecodeRound::Next(
                                r.take(start) + base64_word_text(
                                    cl,
                                    bytes,
                                    r.subrange(start, end),
                                ) + r.skip(end),
                            )
                        },
                    }
                } else if !q_decodable(text) || !q_fits_decoder(text, cl) {
                    DecodeRound::Stuck
                } else {
                    DecodeRound::Next(r.take(start) + q_decoded(text, cl) + r.skip(end))
                }
            },
        }
    }
}

/// The result of at most `rounds` rounds of decoding, or `None` when a
/// round gets stuck.
pub open spec fn decode_rounds(r: Seq<char>, rounds: nat) -> Option<Seq<char>>
    decreases rounds,
{
    if rounds == 0 {
        Some(r)
    } else {
        match decode_round(r) {
            DecodeRound::Done => Some(r),
            DecodeRound::Stuck => None,
            DecodeRound::Next(next) => decode_rounds(next, (rounds - 1) as nat),
        }
    }
}

/// The decoded form of a header value: encoded words replaced one at a time,
/// each round searching from the start again, until none is left (bounded by
/// `usize::MAX` rounds).
pub open spec fn decoded_words(line: Seq<char>) -> Option<Seq<char>> {
    decode_rounds(line, usize::MAX as nat)
}

/// The text of the encoded word `r[start..end]`, or `None` when decoding
/// would get stuck or stop; `Ok(None)` means stop.
fn decode_one_word(
    r: &Vec<char>,
    start: usize,
    end: usize,
    charset: &String,
    enc: u8,
    text: &String,
) -> (res: Result<Option<Vec<char>>, ()>)
    requires
        start <= end <= r.len(),
    ensures
        ({
            let cl = lowercase(charset@);
            match res {
                Err(_) => {
                    ||| enc != 0x62u8 && !(q_decodable(text@) && q_fits_decoder(text@, cl))
                    ||| enc == 0x62u8 && (base64_decoded(encode_utf8(text@)) matches Some(bytes)
                        && charset_label_known(encode_utf8(cl)) && bytes.len() > decode_limit())
                },
                Ok(None) => enc == 0x62u8 && base64_decoded(encode_utf8(text@)) is None,
                Ok(Some(t)) => if enc == 0x62u8 {
                    base64_decoded(encode_utf8(text@)) matches Some(bytes) && !(charset_label_known(
                        encode_utf8(cl),
                    ) && bytes.len() > decode_limit()) && t@ == base64_word_text(
                        cl,
                        bytes,
                        r@.subrange(start as int, end as int),
                    )
                } else {
                    q_decodable(text@) && q_fits_decoder(text@, cl) && t@ == q_decoded(text@, cl)
                },
            }
        }),
{
    let cs_chars = chars_of(charset.as_str());
    let lower = lowercase_chars(&cs_chars);
    let charset_lower = string_from_chars(lower);
    if enc == 0x62 {
        match base64_decode(text.as_str().as_bytes()) {
            Ok(bytes) => {
                match charset_for_label(charset_lower.as_str().as_bytes()) {
                    Some(cs) => {
                        if bytes.len() > usize::MAX / 8 {
                            return Err(());
                        }
                        let decoded = decode_with_charset(&cs, bytes.as_slice());
                        Ok(Some(chars_of(decoded.as_str())))
                    },
                    None => match string_from_utf8(bytes) {
                        Some(t) => Ok(Some(chars_of(t.as_str()))),
                        None => Ok(Some(slice_chars(r, start, end))),
                    },
                }
            },
            Err(_) => Ok(None),
        }
    } else {
        match q_raw_bytes(text.as_str().as_bytes()) {
            None => Err(()),
            Some(raw) => match q_text_from_raw(text.as_str(), raw, charset_lower.as_str()) {
                None => Err(()),
                Some(decoded) => Ok(Some(chars_of(decoded.as_str()))),
            },
        }
    }
}

/// Decodes every encoded word of `line`; `None` where decoding gets stuck.
fn decode_words_checked(line: &str) -> (r: Option<String>)
    ensures
        r is Some <==> decoded_words(line@) is Some,
        r matches Some(t) ==> t@ == decoded_words(line@)->0,
{
    let mut result = chars_of(line);
    let marker = vec!['=', '?'];
    assert(marker@ == seq!['=', '?']);
    let mut rounds: usize = 0;
    while rounds < usize::MAX
        invariant
            marker@ == seq!['=', '?'],
            decode_rounds(result@, (usize::MAX - rounds) as nat) == decoded_words(line@),
        ensures
            decoded_words(line@) == Some(result@),
        decreases usize::MAX - rounds,
    {
        let ghost before = result@;
        let ghost left = (usize::MAX - rounds) as nat;
        assert(decode_rounds(before, left) == match decode_round(before) {
            DecodeRound::Done => Some(before),
            DecodeRound::Stuck => None,
            DecodeRound::Next(next) => decode_rounds(next, (left - 1) as nat),
        });
        if !contains_in(&result, &marker) {
            break;
        }
        let found = find_encoded_word(&result);
        let (start, charset, enc, text, end) = match found {
            Some(w) => w,
            None => {
                break;
            },
        };
        proof {
            lemma_find_word_placed(result@, 0);
        }
        let decoded = match decode_one_word(&result, start, end, &charset, enc, &text) {
            Err(_) => {
                return None;
            },
            Ok(None) => {
                break;
            },
            Ok(Some(t)) => t,
        };
        let mut next = slice_chars(&result, 0, start);
        append_chars(&mut next, &decoded);
        let len = result.len();
        let tail = slice_chars(&result, end, len);
        append_chars(&mut next, &tail);
        result = next;
        rounds = rounds + 1;
    }
    Some(string_from_chars(result))
}

/// Decodes MIME encoded-word tokens (`=?charset?encoding?text?=`) in a string.
///
/// Encoded words are replaced one at a time, the search starting over after
/// each replacement, until no `=?` or no encoded word is left or some Base64
/// text is invalid.
pub fn decode_encoded_words(line: &str) -> (r: String)
    requires
        decoded_words(line@) is Some,
    ensures
        r@ == decoded_words(line@)->0,
{
    match decode_words_checked(line) {
        Some(t) => t,
        None => line.to_owned(),
    }
}

/// Decodes the encoded words of `line` as `decode_encoded_words` does, or
/// returns `None` when one of them cannot be decoded: a Q escape that splits
/// a character, or a text too long for the charset decoder.
pub fn try_decode_encoded_words(line: &str) -> (r: Option<String>)
    ensures
        r is Some <==> decoded_words(line@) is Some,
        r matches Some(t) ==> t@ == decoded_words(line@)->0,
{
    match decode_words_checked(line) {
        Some(_) => Some(decode_encoded_words(line)),
        None => None,
    }
}

} // verus!
