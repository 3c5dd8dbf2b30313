use emailbook::{
    alias_slice_is_ok, value_slice_is_ok, check_alias, check_value, decode_encoded_words, decode_q_encoded_string,
    decode_q_encoded_string_charset, display_value, find_encoded_word, sanitize_mailbox,
    split_at_unquoted_commas, starts_with_any, strip_unnecessary_display_quotes, toggle_quotes,
    try_decode_encoded_words, EmailBook, MailboxOutcome, ParseSource,
};

fn book(lines: &[&str]) -> EmailBook {
    EmailBook { lines: lines.iter().map(|l| l.to_string()).collect() }
}

// ── quotes ──────────────────────────────────────────────────────

#[test]
fn toggle_twice_gives_back_unquoted_mailbox() {
    let s = "John Doe <john@example.com>";
    assert_eq!(toggle_quotes(&toggle_quotes(s)), s);
}

#[test]
fn toggle_leaves_bare_address() {
    assert_eq!(toggle_quotes("<john@example.com>"), "<john@example.com>");
}

#[test]
fn toggle_removes_every_double_quote() {
    assert_eq!(toggle_quotes("\"a\"b\" <x>"), "ab <x>");
}

#[test]
fn strip_quotes_plain_name() {
    assert_eq!(
        strip_unnecessary_display_quotes("\"John Doe\" <j@x>"),
        Some("John Doe <j@x>".to_string())
    );
}

#[test]
fn strip_quotes_kept_for_specials() {
    assert_eq!(strip_unnecessary_display_quotes("\"Doe, John\" <j@x>"), None);
    assert_eq!(strip_unnecessary_display_quotes("\"Müller\" <j@x>"), None);
    assert_eq!(strip_unnecessary_display_quotes("\"\" <j@x>"), None);
    assert_eq!(strip_unnecessary_display_quotes("John <j@x>"), None);
    assert_eq!(strip_unnecessary_display_quotes("\"John\"<j@x>"), None);
    assert_eq!(strip_unnecessary_display_quotes("\"John <j@x>"), None);
}

#[test]
fn strip_quotes_escaped_quote_in_name() {
    // the escaped quote does not close the name, and a backslash needs quoting
    assert_eq!(strip_unnecessary_display_quotes("\"a\\\"b\" <j@x>"), None);
}

// ── splitting ───────────────────────────────────────────────────

#[test]
fn split_then_join_gives_back_value() {
    let s = "\"Doe, John\" <j@x.com>, b@y.com,,\"q\\\"uoted, still\" <c@z>";
    let parts = split_at_unquoted_commas(s);
    assert_eq!(parts.join(","), s);
    assert_eq!(parts.len(), 4);
}

#[test]
fn split_empty_value() {
    assert_eq!(split_at_unquoted_commas(""), vec![""]);
}

// ── sanitizing ──────────────────────────────────────────────────

#[test]
fn sanitize_backslash_keeps_next_character() {
    assert_eq!(sanitize_mailbox("a\\  b"), "a\\  b");
    assert_eq!(sanitize_mailbox("a\\\tb"), "a\\\tb");
}

#[test]
fn sanitize_trailing_backslash() {
    assert_eq!(sanitize_mailbox("a\\"), "a\\");
}

#[test]
fn sanitize_single_quote_before_angle() {
    assert_eq!(sanitize_mailbox("john' <x>"), "john <x>");
    assert_eq!(sanitize_mailbox("o'neil <x>"), "o'neil <x>");
}

#[test]
fn sanitize_non_ascii_passes_through() {
    assert_eq!(sanitize_mailbox("Zoë  Müller\t<z@x>"), "Zoë Müller <z@x>");
}

// ── searching ───────────────────────────────────────────────────

#[test]
fn check_alias_is_case_insensitive_in_the_alias() {
    assert_eq!(check_alias("john", "JOHN : <j@x>"), Some("<j@x>".to_string()));
}

#[test]
fn check_alias_colon_last() {
    assert_eq!(check_alias("a", "a:"), None);
}

#[test]
fn check_value_edges() {
    assert_eq!(check_value("a", ""), None);
    assert_eq!(check_value("a", "a:"), None);
    assert_eq!(check_value("a", "a: "), None);
    assert_eq!(check_value("b", "a: b"), Some("b".to_string()));
    assert_eq!(check_value("ü", "Ü <u@x>"), Some("Ü <u@x>".to_string()));
}

#[test]
fn display_value_cases() {
    assert_eq!(display_value("john : <j@x>"), "<j@x>");
    assert_eq!(display_value("<j@x>"), "<j@x>");
    assert_eq!(display_value("a:"), "a:");
}

#[test]
fn search_all_lists_each_match_once() {
    let b = book(&[
        "alice : Alice Z. <alice@harelang.org>",
        "bob : Robert Y. <robert@harelang.org>",
        "carol : <carol@sourehut.org>",
        "Dan <daniel@sourcehut.org>",
    ]);
    assert_eq!(b.search_all("c"), vec![0, 2, 3]);
    assert_eq!(b.search_all("harelang"), vec![0, 1]);
    assert_eq!(b.search_all("ALICE"), vec![0]);
    assert_eq!(b.search_by_alias("c"), vec![0, 2]);
    assert_eq!(b.search_by_value("c"), vec![0, 2, 3]);
    assert_eq!(b.search_by_value_only("c"), vec![3]);
}

// ── adding and removing ─────────────────────────────────────────

#[test]
fn add_writes_keyed_line() {
    let mut b = book(&["a : <a@x>"]);
    assert!(b.add(Some("b"), "<b@x>"));
    assert_eq!(b.lines, vec!["a : <a@x>", "b : <b@x>"]);
    assert!(!b.add(Some("b"), "<other@x>"));
    assert_eq!(b.lines.len(), 2);
}

#[test]
fn add_skips_unquoted_duplicate_of_quoted_entry() {
    let mut b = book(&["\"John Doe\" <j@x>"]);
    assert!(!b.add(None, "John Doe <j@x>"));
    assert!(b.add(None, "Jane <j@x>"));
}

#[test]
fn remove_lines_keeps_the_rest_in_order() {
    let mut b = book(&["a", "b", "c", "d"]);
    b.remove_lines(&[3, 1, 7]);
    assert_eq!(b.lines, vec!["a", "c"]);
}

#[test]
fn file_content_round_trip() {
    let b = book(&["a : <a@x>", "", "  b <b@x>"]);
    assert_eq!(b.file_content(), "a : <a@x>\n\n  b <b@x>\n");
    let back = EmailBook::from_content(&b.file_content());
    assert_eq!(back.lines, b.lines);
    assert_eq!(book(&[]).file_content(), "");
}

#[test]
fn from_content_trims_and_splits() {
    let b = EmailBook::from_content("\n  a <a@x>\r\nb <b@x>\n\n");
    assert_eq!(b.lines, vec!["a <a@x>", "b <b@x>"]);
    assert!(EmailBook::from_content(" \n\t ").lines.is_empty());
}

// ── mailboxes from headers ──────────────────────────────────────

#[test]
fn match_mailbox_outcomes() {
    let mut b = book(&[]);
    assert!(matches!(b.match_mailbox("nobody"), MailboxOutcome::NotAnAddress));
    assert!(matches!(b.match_mailbox("No-Reply@x.org"), MailboxOutcome::NoReply));
    match b.match_mailbox("a@x.org") {
        MailboxOutcome::Added(m) => assert_eq!(m, "<a@x.org>"),
        _ => panic!("expected the mailbox to be added"),
    }
    match b.match_mailbox("<a@x.org>") {
        MailboxOutcome::Duplicate(m) => assert_eq!(m, "<a@x.org>"),
        _ => panic!("expected a duplicate"),
    }
    assert!(matches!(b.match_mailbox("=?utf-8?q?=a\u{20ac}?= <u@x>"), MailboxOutcome::Undecodable));
    assert_eq!(b.lines, vec!["<a@x.org>"]);
}

#[test]
fn parse_content_reports_each_mailbox() {
    let mut b = book(&[]);
    let fields = ParseSource::To.to_fields();
    let content = "From: a@x\nTo: b@x,\n c@x\nCc: d@x\n\nTo: e@x";
    let outcomes = b.parse_content(content, &fields);
    assert_eq!(outcomes.len(), 2);
    assert_eq!(b.lines, vec!["<b@x>", "<c@x>"]);
}

#[test]
fn parse_content_stops_folding_after_other_field() {
    let mut b = book(&[]);
    let fields = ParseSource::All.to_fields();
    let content = "To: a@x\nSubject: hi\n b@x\r\nCc: c@x";
    b.parse_content(content, &fields);
    assert_eq!(b.lines, vec!["<a@x>", "<c@x>"]);
}

#[test]
fn to_fields_lists() {
    assert_eq!(ParseSource::All.to_fields(), vec!["From:", "To:", "Cc:", "CC:", "Bcc:"]);
    assert_eq!(ParseSource::Cc.to_fields(), vec!["Cc:", "CC:"]);
    assert_eq!(ParseSource::Bcc.to_fields(), vec!["Bcc:"]);
}

#[test]
fn starts_with_any_first_match() {
    assert_eq!(starts_with_any("CC: x", &["Cc:", "CC:", "C"]), Some(1));
    assert_eq!(starts_with_any("Bcc: x", &["Cc:"]), None);
}

// ── encoded words ───────────────────────────────────────────────

#[test]
fn find_encoded_word_positions() {
    let s: Vec<char> = "x =?utf-8?Q?a_b?= y".chars().collect();
    let w = find_encoded_word(&s).unwrap();
    assert_eq!(w.0, 2);
    assert_eq!(w.1, "utf-8");
    assert_eq!(w.2, b'q');
    assert_eq!(w.3, "a_b");
    assert_eq!(w.4, 17);
}

#[test]
fn find_encoded_word_skips_broken_candidate() {
    let s: Vec<char> = "=?=?x?b?YQ==?=".chars().collect();
    let w = find_encoded_word(&s).unwrap();
    assert_eq!(w.0, 2);
    assert_eq!(w.1, "x");
    let none: Vec<char> = "=??q?a?=".chars().collect();
    assert!(find_encoded_word(&none).is_none());
}

#[test]
fn decode_q_special_bytes() {
    assert_eq!(decode_q_encoded_string("a_b=3F=zz=+9"), "a b??\t");
}

#[test]
fn decode_q_unknown_charset_falls_back_to_utf8() {
    assert_eq!(decode_q_encoded_string_charset("M=C3=BCller", "no-such-charset"), "Müller");
    assert_eq!(decode_q_encoded_string_charset("M=FCller", "no-such-charset"), "M=FCller");
}

#[test]
fn decode_words_base64_and_invalid_base64() {
    assert_eq!(decode_encoded_words("=?utf-8?b?SGk=?= there"), "Hi there");
    assert_eq!(decode_encoded_words("=?utf-8?b?!!?= there"), "=?utf-8?b?!!?= there");
}

#[test]
fn decode_words_repeats_until_none_left() {
    assert_eq!(decode_encoded_words("=?utf-8?q?a?= =?utf-8?q?b?="), "a b");
}

#[test]
fn try_decode_reports_split_character() {
    assert_eq!(try_decode_encoded_words("=?utf-8?q?=a\u{20ac}?="), None);
    assert_eq!(try_decode_encoded_words("plain"), Some("plain".to_string()));
}

#[test]
fn removing_added_entry_restores_book() {
    let mut b = book(&["a : <a@x>", "<b@x>"]);
    let before = b.lines.clone();
    assert!(b.add(None, "C <c@x>"));
    let last = b.lines.len() - 1;
    b.remove_lines(&[last]);
    assert_eq!(b.lines, before);
}

#[test]
fn added_key_then_exists() {
    let mut b = book(&[]);
    assert!(!b.key_exists("k"));
    assert!(b.add(Some("k"), "<k@x>"));
    assert!(b.key_exists("k"));
}

#[test]
fn sanitized_tabs_follow_backslashes() {
    let out = sanitize_mailbox("\ta\\\tb\t\t<c>");
    assert_eq!(out, " a\\\tb  <c>");
    let chars: Vec<char> = out.chars().collect();
    for (j, c) in chars.iter().enumerate() {
        if *c == '\t' {
            assert!(j > 0 && chars[j - 1] == '\\');
        }
    }
}

#[test]
fn quoted_mailbox_toggles_back() {
    let s = "\"John Doe\" <john@example.com>";
    assert_eq!(toggle_quotes(&toggle_quotes(s)), s);
}

#[test]
fn found_word_stands_in_the_string() {
    let text = "pre =?ISO-8859-1?B?TfxsbGVy?= post";
    let s: Vec<char> = text.chars().collect();
    let w = find_encoded_word(&s).unwrap();
    let word: String = s[w.0..w.4].iter().collect();
    assert_eq!(word, format!("=?{}?B?{}?=", w.1, w.3));
    assert_eq!(w.2, b'b');
    assert_eq!(decode_encoded_words(text), "pre Müller post");
}

#[test]
fn parsing_twice_adds_nothing_the_second_time() {
    let mut b = book(&["John Doe <john.doe@example.com>"]);
    let fields = ParseSource::All.to_fields();
    let content = "From: \"John Doe\"<john.doe@example.com>\nTo: a@x, B <b@x>\nCc: =?utf-8?q?C=C3=A9?= <c@x>\n\nbody";
    b.parse_content(content, &fields);
    let once = b.lines.clone();
    assert_eq!(once.len(), 4);
    let outcomes = b.parse_content(content, &fields);
    assert_eq!(b.lines, once);
    assert!(outcomes.iter().all(|o| !matches!(o, MailboxOutcome::Added(_))));
}

#[test]
fn text_after_blank_line_is_not_read() {
    let fields = ParseSource::All.to_fields();
    let h = "To: a@x,\n b@x";
    let mut plain = book(&[]);
    plain.parse_content(h, &fields);
    let mut with_body = book(&[]);
    with_body.parse_content(&format!("{h}\n\nTo: c@x\n d@x"), &fields);
    assert_eq!(with_body.lines, plain.lines);
    assert_eq!(plain.lines, vec!["<a@x>", "<b@x>"]);
}

#[test]
fn split_without_quotes_is_split_at_commas() {
    for s in ["a@x.com", "a@x.com, b@y.com", "", ",,", "a,b\\,c"] {
        let parts = split_at_unquoted_commas(s);
        assert!(!parts.is_empty());
        let expected: Vec<String> = s.split(',').map(String::from).collect();
        assert_eq!(parts, expected);
    }
}

#[test]
fn search_all_is_alias_hits_then_other_value_hits() {
    let b = book(&["x : <a@c>", "abc : <d@e>"]);
    let alias = b.search_by_alias("a");
    let value = b.search_by_value("a");
    let mut expected = alias.clone();
    expected.extend(value.iter().filter(|i| !alias.contains(i)));
    assert_eq!(b.search_all("a"), expected);
    assert_eq!(b.search_all("a"), vec![1, 0]);
}

#[test]
fn sanitize_plain_mailbox_has_single_spaces() {
    let out = sanitize_mailbox("  John    Doe   <j@x>  ");
    assert_eq!(out, " John Doe <j@x> ");
    assert!(!out.contains("  "));
}

#[test]
fn slice_testers() {
    assert!(value_slice_is_ok("a : b"));
    assert!(value_slice_is_ok("a:"));
    assert!(value_slice_is_ok("no colon é"));
    assert!(!value_slice_is_ok("a:éb"));
    assert!(alias_slice_is_ok("zzz", "a:éb"));
    assert!(!alias_slice_is_ok("a", "A:éb"));
    let b = book(&["a : <a@x>", "re:élan <e@x>"]);
    assert!(!b.can_search_values());
    assert!(b.can_search_aliases("a"));
    assert!(!b.can_search_aliases("re"));
}

#[test]
fn decode_q_unknown_charset_takes_long_text() {
    let text = "a".repeat(1000);
    assert_eq!(decode_q_encoded_string_charset(&text, "no-such-charset"), text);
}
