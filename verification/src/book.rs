//! The address book: its entries, adding entries, searching, removing, and
//! collecting mailboxes from e-mail headers.
use vstd::prelude::*;
use crate::headers::{collect_header_values, header_values, str_views};
use crate::mailbox::{
    in_list, join_with, lemma_views_push, mailbox_in_list, split_at_unquoted_commas, toggle_quotes, toggled,
    unquoted_comma_pieces, views, without_char,
};
use crate::mime::{decoded_words, try_decode_encoded_words};
use crate::sanitize::{sanitize_mailbox, sanitized};
use crate::search::{
    alias_slice_is_ok, alias_slice_ok, check_alias, check_value, hits, value_slice_is_ok,
    value_slice_ok, SearchField,
};
use crate::text::{
    append_chars, char_views, chars_of, contains_char, contains_char_in, contains_in,
    contains_seq, find_char, find_char_in, lines_of, lowercase, matches_at, slice_chars,
    starts_with, string_from_chars, text_lines, to_lowercase, trim, trim_chars, white_space,
};

verus! {

/// Represents an in-memory address book. Each entry is a line: a bare
/// mailbox, or `ALIAS : MAILBOX`.
#[derive(Debug)]
pub struct EmailBook {
    pub lines: Vec<String>,
}

impl View for EmailBook {
    type V = Seq<Seq<char>>;

    open spec fn view(&self) -> Seq<Seq<char>> {
        views(self.lines@)
    }
}

// ---------------------------------------------------------------------------
// The book as text
// ---------------------------------------------------------------------------

/// The text of an address-book file holding `lines`: each line followed by a
/// newline.
pub open spec fn lines_text(lines: Seq<Seq<char>>) -> Seq<char>
    decreases lines.len(),
{
    if lines.len() == 0 {
        Seq::empty()
    } else {
        lines_text(lines.drop_last()) + lines.last().push('\n')
    }
}

impl EmailBook {
    /// The book that the text of an address-book file describes: the lines
    /// of the text with surrounding whitespace trimmed.
    pub fn from_content(content: &str) -> (r: EmailBook)
        ensures
            r@ == text_lines(trim(content@)),
    {
        let c = chars_of(content);
        let t = trim_chars(&c);
        let ls = lines_of(&t);
        let mut lines: Vec<String> = Vec::new();
        let mut i: usize = 0;
        while i < ls.len()
            invariant
                i <= ls.len(),
                views(lines@) == char_views(ls@).take(i as int),
            decreases ls.len() - i,
        {
            let s = string_from_chars(ls[i].clone());
            proof {
                lemma_views_push(lines@, s);
            }
            lines.push(s);
            assert(char_views(ls@).take(i + 1) =~= char_views(ls@).take(i as int).push(ls@[i as int]@));
            i = i + 1;
        }
        assert(char_views(ls@).take(ls.len() as int) =~= char_views(ls@));
        EmailBook { lines }
    }

    /// The text of the address-book file for this book: each line followed
    /// by a newline (empty for an empty book).
    pub fn file_content(&self) -> (r: String)
        ensures
            r@ == lines_text(self@),
    {
        let mut out: Vec<char> = Vec::new();
        let mut i: usize = 0;
        while i < self.lines.len()
            invariant
                i <= self.lines.len(),
                out@ == lines_text(self@.take(i as int)),
            decreases self.lines.len() - i,
        {
            let l = chars_of(self.lines[i].as_str());
            append_chars(&mut out, &l);
            out.push('\n');
            assert(self@.take(i + 1).drop_last() =~= self@.take(i as int));
            i = i + 1;
        }
        assert(self@.take(self.lines.len() as int) =~= self@);
        string_from_chars(out)
    }
}

// ---------------------------------------------------------------------------
// Keys and adding entries
// ---------------------------------------------------------------------------

/// The prefix `KEY :` that a keyed entry starts with.
pub open spec fn key_prefix(key: Seq<char>) -> Seq<char> {
    key + seq![' ', ':']
}

/// Some entry of `lines` starts with `KEY :`.
pub open spec fn has_key(lines: Seq<Seq<char>>, key: Seq<char>) -> bool {
    exists|i: int| 0 <= i < lines.len() && starts_with(#[trigger] lines[i], key_prefix(key))
}

/// The views of an optional string slice.
pub open spec fn opt_view(key: Option<&str>) -> Option<Seq<char>> {
    match key {
        Some(k) => Some(k@),
        None => None,
    }
}

/// The entry line that `add` writes: `KEY : VALUE`, or the value alone.
pub open spec fn entry_line(key: Option<Seq<char>>, value: Seq<char>) -> Seq<char> {
    match key {
        Some(k) => k + seq![' ', ':', ' '] + value,
        None => value,
    }
}

/// `add` skips an entry whose key is taken, or, without a key, whose value is
/// in the book as it is or with its display-name quotes toggled.
pub open spec fn already_present(lines: Seq<Seq<char>>, key: Option<Seq<char>>, value: Seq<char>) -> bool {
    match key {
        Some(k) => has_key(lines, k),
        None => in_list(value, lines) || in_list(toggled(value), lines),
    }
}

/// An alias is taken only by an entry that begins with the alias followed
/// by ` :`; an entry that holds `KEY :` further on does not take it. So
/// `add` with a key skips the entry exactly when some entry begins that way,
/// whatever the value.
pub proof fn alias_taken_only_at_entry_start(lines: Seq<Seq<char>>, key: Seq<char>, value: Seq<char>)
    ensures
        already_present(lines, Some(key), value) <==> exists|i: int|
            0 <= i < lines.len() && (#[trigger] lines[i]).len() >= key.len() + 2 && lines[i].take(
                key.len() as int,
            ) == key && lines[i][key.len() as int] == ' ' && lines[i][key.len() + 1int] == ':',
{
    let n = key.len() as int;
    let p = key_prefix(key);
    if has_key(lines, key) {
        let i = choose|i: int| 0 <= i < lines.len() && starts_with(#[trigger] lines[i], p);
        let l = lines[i];
        assert(l.subrange(0, n + 2) == p);
        assert(l.take(n) =~= key) by {
            assert forall|j: int| 0 <= j < n implies l.take(n)[j] == key[j] by {
                assert(l.subrange(0, n + 2)[j] == p[j]);
            }
        }
        assert(l.subrange(0, n + 2)[n] == p[n]);
        assert(l.subrange(0, n + 2)[n + 1] == p[n + 1]);
    }
    if exists|i: int|
        0 <= i < lines.len() && (#[trigger] lines[i]).len() >= n + 2 && lines[i].take(n) == key
            && lines[i][n] == ' ' && lines[i][n + 1] == ':' {
        let i = choose|i: int|
            0 <= i < lines.len() && (#[trigger] lines[i]).len() >= n + 2 && lines[i].take(n) == key
                && lines[i][n] == ' ' && lines[i][n + 1] == ':';
        let l = lines[i];
        assert(l.subrange(0, n + 2) =~= p) by {
            assert forall|j: int| 0 <= j < n implies l.subrange(0, n + 2)[j] == p[j] by {
                assert(l.take(n)[j] == key[j]);
            }
        }
        assert(starts_with(lines[i], p));
    }
}

impl EmailBook {
    /// Checks if a key (alias) already exists in the address book.
    pub fn key_exists(&self, key: &str) -> (r: bool)
        ensures
            r == has_key(self@, key@),
    {
        let mut prefix = chars_of(key);
        prefix.push(' ');
        prefix.push(':');
        assert(prefix@ == key_prefix(key@));
        let mut i: usize = 0;
        while i < self.lines.len()
            invariant
                prefix@ == key_prefix(key@),
                i <= self.lines.len(),
                forall|j: int| 0 <= j < i ==> !starts_with(#[trigger] self@[j], key_prefix(key@)),
            decreases self.lines.len() - i,
        {
            let l = chars_of(self.lines[i].as_str());
            assert(l@ == self@[i as int]);
            if matches_at(&l, &prefix, 0) {
                return true;
            }
            i = i + 1;
        }
        false
    }

    /// Adds an entry to the address book. Returns true if added, false if
    /// skipped.
    pub fn add(&mut self, key: Option<&str>, value: &str) -> (r: bool)
        ensures
            r == !already_present(old(self)@, opt_view(key), value@),
            r ==> final(self)@ == old(self)@.push(entry_line(opt_view(key), value@)),
            !r ==> final(self)@ == old(self)@,
    {
        let exists = match key {
            Some(k) => self.key_exists(k),
            None => {
                mailbox_in_list(value, self.lines.as_slice()) || mailbox_in_list(
                    toggle_quotes(value).as_str(),
                    self.lines.as_slice(),
                )
            },
        };
        if exists {
            return false;
        }
        let line = match key {
            Some(k) => {
                let mut l = chars_of(k);
                l.push(' ');
                l.push(':');
                l.push(' ');
                let v = chars_of(value);
                append_chars(&mut l, &v);
                assert(l@ =~= k@ + seq![' ', ':', ' '] + value@);
                string_from_chars(l)
            },
            None => value.to_owned(),
        };
        proof {
            lemma_views_push(self.lines@, line);
        }
        self.lines.push(line);
        true
    }
}

// ---------------------------------------------------------------------------
// Searching
// ---------------------------------------------------------------------------

/// The entries a search over `field` can slice without panicking.
pub open spec fn searchable(lines: Seq<Seq<char>>, q: Seq<char>, field: SearchField) -> bool {
    forall|i: int|
        0 <= i < lines.len() ==> match field {
            SearchField::Alias => alias_slice_ok(q, #[trigger] lines[i]),
            _ => value_slice_ok(lines[i]),
        }
}

impl EmailBook {
    /// The indices of the entries that match the lowercased query `q` in
    /// `field`, in increasing order.
    fn matching(&self, q: &String, field: SearchField) -> (r: Vec<usize>)
        requires
            searchable(self@, q@, field),
        ensures
            r@ == hits(self@, q@, field),
    {
        let mut r: Vec<usize> = Vec::new();
        let mut i: usize = 0;
        while i < self.lines.len()
            invariant
                searchable(self@, q@, field),
                i <= self.lines.len(),
                r@ == hits(self@.take(i as int), q@, field),
            decreases self.lines.len() - i,
        {
            let line = self.lines[i].as_str();
            assert(line@ == self@[i as int]);
            let hit = match field {
                SearchField::Alias => check_alias(q.as_str(), line).is_some(),
                SearchField::Value => check_value(q.as_str(), line).is_some(),
                SearchField::ValueOnly => {
                    check_alias(q.as_str(), line).is_none() && check_value(
                        q.as_str(),
                        line,
                    ).is_some()
                },
            };
            assert(self@.take(i + 1).drop_last() =~= self@.take(i as int));
            assert(self@.take(i + 1).last() == self@[i as int]);
            if hit {
                r.push(i);
            }
            i = i + 1;
        }
        assert(self@.take(self.lines.len() as int) =~= self@);
        r
    }

    /// Returns indices of lines whose key matches the query.
    pub fn search_by_alias(&self, query: &str) -> (r: Vec<usize>)
        requires
            searchable(self@, lowercase(query@), SearchField::Alias),
        ensures
            r@ == hits(self@, lowercase(query@), SearchField::Alias),
    {
        let q = to_lowercase(query);
        self.matching(&q, SearchField::Alias)
    }

    /// Returns indices of lines whose value matches the query.
    pub fn search_by_value(&self, query: &str) -> (r: Vec<usize>)
        requires
            forall|i: int| 0 <= i < self@.len() ==> value_slice_ok(#[trigger] self@[i]),
        ensures
            r@ == hits(self@, lowercase(query@), SearchField::Value),
    {
        let q = to_lowercase(query);
        self.matching(&q, SearchField::Value)
    }

    /// Returns indices of lines whose value matches the query and whose
    /// alias does not.
    pub fn search_by_value_only(&self, query: &str) -> (r: Vec<usize>)
        requires
            forall|i: int| 0 <= i < self@.len() ==> value_slice_ok(#[trigger] self@[i]),
        ensures
            r@ == hits(self@, lowercase(query@), SearchField::ValueOnly),
    {
        let q = to_lowercase(query);
        self.matching(&q, SearchField::ValueOnly)
    }

    /// Returns indices of all matching lines (alias matches first, then
    /// value-only), without duplicates.
    pub fn search_all(&self, query: &str) -> (r: Vec<usize>)
        requires
            forall|i: int| 0 <= i < self@.len() ==> value_slice_ok(#[trigger] self@[i]),
        ensures
            r@ == hits(self@, lowercase(query@), SearchField::Alias) + hits(
                self@,
                lowercase(query@),
                SearchField::ValueOnly,
            ),
    {
        let mut r = self.search_by_alias(query);
        let rest = self.search_by_value_only(query);
        let ghost first = r@;
        let mut k: usize = 0;
        while k < rest.len()
            invariant
                k <= rest.len(),
                r@ == first + rest@.take(k as int),
            decreases rest.len() - k,
        {
            r.push(rest[k]);
            assert(rest@.take(k + 1) =~= rest@.take(k as int).push(rest@[k as int]));
            k = k + 1;
        }
        assert(rest@.take(rest.len() as int) =~= rest@);
        r
    }
}

impl EmailBook {
    /// Whether every entry's value part can be sliced, as value searches and
    /// `search_all` require.
    pub fn can_search_values(&self) -> (r: bool)
        ensures
            r == (forall|i: int| 0 <= i < self@.len() ==> value_slice_ok(#[trigger] self@[i])),
    {
        let mut i: usize = 0;
        while i < self.lines.len()
            invariant
                i <= self.lines.len(),
                forall|j: int| 0 <= j < i ==> value_slice_ok(#[trigger] self@[j]),
            decreases self.lines.len() - i,
        {
            assert(self.lines@[i as int]@ == self@[i as int]);
            if !value_slice_is_ok(self.lines[i].as_str()) {
                return false;
            }
            i = i + 1;
        }
        true
    }

    /// Whether an alias search for `query` can slice the values it returns,
    /// as `search_by_alias` requires.
    pub fn can_search_aliases(&self, query: &str) -> (r: bool)
        ensures
            r == searchable(self@, lowercase(query@), SearchField::Alias),
    {
        let q = to_lowercase(query);
        let mut i: usize = 0;
        while i < self.lines.len()
            invariant
                q@ == lowercase(query@),
                i <= self.lines.len(),
                forall|j: int| 0 <= j < i ==> alias_slice_ok(q@, #[trigger] self@[j]),
            decreases self.lines.len() - i,
        {
            assert(self.lines@[i as int]@ == self@[i as int]);
            if !alias_slice_is_ok(q.as_str(), self.lines[i].as_str()) {
                return false;
            }
            i = i + 1;
        }
        true
    }
}

// ---------------------------------------------------------------------------
// Removing entries
// ---------------------------------------------------------------------------

/// The entries whose index is not listed in `indices`, in order.
pub open spec fn kept_lines(lines: Seq<Seq<char>>, indices: Seq<usize>) -> Seq<Seq<char>>
    decreases lines.len(),
{
    if lines.len() == 0 {
        Seq::empty()
    } else {
        let before = kept_lines(lines.drop_last(), indices);
        if indices.contains((lines.len() - 1) as usize) {
            before
        } else {
            before.push(lines.last())
        }
    }
}

fn contains_index(indices: &[usize], i: usize) -> (r: bool)
    ensures
        r == indices@.contains(i),
{
    let mut k: usize = 0;
    while k < indices.len()
        invariant
            k <= indices.len(),
            forall|j: int| 0 <= j < k ==> indices@[j] != i,
        decreases indices.len() - k,
    {
        if indices[k] == i {
            return true;
        }
        k = k + 1;
    }
    false
}

impl EmailBook {
    /// Removes the lines at the given indices.
    pub fn remove_lines(&mut self, indices: &[usize])
        ensures
            final(self)@ == kept_lines(old(self)@, indices@),
    {
        let mut kept: Vec<String> = Vec::new();
        let mut i: usize = 0;
        while i < self.lines.len()
            invariant
                i <= self.lines.len(),
                views(kept@) == kept_lines(self@.take(i as int), indices@),
            decreases self.lines.len() - i,
        {
            assert(self@.take(i + 1).drop_last() =~= self@.take(i as int));
            assert(self@.take(i + 1).last() == self@[i as int]);
            if !contains_index(indices, i) {
                let l = self.lines[i].clone();
                proof {
                    lemma_views_push(kept@, l);
                }
                kept.push(l);
            }
            i = i + 1;
        }
        assert(self@.take(self.lines.len() as int) =~= self@);
        self.lines = kept;
    }
}

// ---------------------------------------------------------------------------
// Collecting mailboxes from headers
// ---------------------------------------------------------------------------

/// What happened to one mailbox offered to the book.
#[derive(Debug)]
pub enum MailboxOutcome {
    /// It holds no `@`.
    NotAnAddress,
    /// It is a no-reply address.
    NoReply,
    /// One of its encoded words cannot be decoded.
    Undecodable,
    /// Its normalized form (given) is already in the book.
    Duplicate(String),
    /// Its normalized form (given) was added to the book.
    Added(String),
}

/// The mathematical form of a `MailboxOutcome`.
pub enum OutcomeView {
    NotAnAddress,
    NoReply,
    Undecodable,
    Duplicate(Seq<char>),
    Added(Seq<char>),
}

impl View for MailboxOutcome {
    type V = OutcomeView;

    open spec fn view(&self) -> OutcomeView {
        match self {
            MailboxOutcome::NotAnAddress => OutcomeView::NotAnAddress,
            MailboxOutcome::NoReply => OutcomeView::NoReply,
            MailboxOutcome::Undecodable => OutcomeView::Undecodable,
            MailboxOutcome::Duplicate(m) => OutcomeView::Duplicate(m@),
            MailboxOutcome::Added(m) => OutcomeView::Added(m@),
        }
    }
}

/// The views of a sequence of outcomes.
pub open spec fn outcome_views(v: Seq<MailboxOutcome>) -> Seq<OutcomeView> {
    v.map_values(|o: MailboxOutcome| o@)
}

/// The markers of no-reply addresses, matched against the lowercased mailbox.
pub open spec fn noreply_markers() -> Seq<Seq<char>> {
    seq![
        "noreply"@,
        "no_reply"@,
        "no-reply"@,
        "not-reply"@,
        "not_reply"@,
        "do-not-reply"@,
        "do_not_reply"@,
        "donotreply"@,
        "donotrespond"@,
        "do-not-respond"@,
    ]
}

/// The lowercased mailbox holds a no-reply marker.
pub open spec fn is_noreply(lower: Seq<char>) -> bool {
    exists|j: int| 0 <= j < noreply_markers().len() && contains_seq(lower, #[trigger] noreply_markers()[j])
}

/// A bare address (no space, not starting with `<`) wrapped in angle brackets.
pub open spec fn bracketed(s: Seq<char>) -> Seq<char> {
    if !contains_char(s, ' ') && !(s.len() > 0 && s[0] == '<') {
        seq!['<'] + s + seq!['>']
    } else {
        s
    }
}

/// A space inserted before the first `<` when it follows something other
/// than a space.
pub open spec fn spaced_before_angle(s: Seq<char>) -> Seq<char> {
    match find_char(s, '<') {
        Some(p) => if p > 0 && s[p - 1] != ' ' {
            s.take(p) + seq![' '] + s.skip(p)
        } else {
            s
        },
        None => s,
    }
}

/// How a mailbox offered to the book is classified.
pub enum MailboxClass {
    NotAnAddress,
    NoReply,
    Undecodable,
    /// A mailbox in normal form.
    Mailbox(Seq<char>),
}

/// The classification of an offered mailbox: it needs an `@`, must not be a
/// no-reply address, and its normal form is its decoded, sanitized text,
/// bracketed when bare, with a space before `<`.
pub open spec fn classify_mailbox(line: Seq<char>) -> MailboxClass {
    if !contains_char(line, '@') {
        MailboxClass::NotAnAddress
    } else if is_noreply(lowercase(line)) {
        MailboxClass::NoReply
    } else {
        match decoded_words(line) {
            None => MailboxClass::Undecodable,
            Some(d) => MailboxClass::Mailbox(spaced_before_angle(bracketed(sanitized(d)))),
        }
    }
}

/// The book and outcome after offering `line` to the book `lines`: a mailbox
/// is added unless it, or it with its quotes toggled, is already there.
pub open spec fn mailbox_step(lines: Seq<Seq<char>>, line: Seq<char>) -> (Seq<Seq<char>>, OutcomeView) {
    match classify_mailbox(line) {
        MailboxClass::NotAnAddress => (lines, OutcomeView::NotAnAddress),
        MailboxClass::NoReply => (lines, OutcomeView::NoReply),
        MailboxClass::Undecodable => (lines, OutcomeView::Undecodable),
        MailboxClass::Mailbox(m) => if in_list(m, lines) || in_list(toggled(m), lines) {
            (lines, OutcomeView::Duplicate(m))
        } else {
            (lines.push(m), OutcomeView::Added(m))
        },
    }
}

/// The book and outcomes after offering each of `cands` in turn.
pub open spec fn apply_mailboxes(lines: Seq<Seq<char>>, cands: Seq<Seq<char>>) -> (Seq<Seq<char>>, Seq<OutcomeView>)
    decreases cands.len(),
{
    if cands.len() == 0 {
        (lines, Seq::empty())
    } else {
        let (book, outs) = apply_mailboxes(lines, cands.drop_last());
        let (book2, o) = mailbox_step(book, cands.last());
        (book2, outs.push(o))
    }
}

/// The mailboxes of one header value: newlines removed, split at unquoted
/// commas, each piece trimmed.
pub open spec fn value_mailboxes(value: Seq<char>) -> Seq<Seq<char>> {
    unquoted_comma_pieces(without_char(value, '\n')).map_values(|p: Seq<char>| trim(p))
}

/// The mailboxes of several header values, in order.
pub open spec fn values_mailboxes(values: Seq<Seq<char>>) -> Seq<Seq<char>>
    decreases values.len(),
{
    if values.len() == 0 {
        Seq::empty()
    } else {
        values_mailboxes(values.drop_last()) + value_mailboxes(values.last())
    }
}

/// Offering `a` and then `b` is offering `a + b`.
pub proof fn lemma_apply_concat(lines: Seq<Seq<char>>, a: Seq<Seq<char>>, b: Seq<Seq<char>>)
    ensures
        apply_mailboxes(lines, a + b) == ({
            let (l1, o1) = apply_mailboxes(lines, a);
            let (l2, o2) = apply_mailboxes(l1, b);
            (l2, o1 + o2)
        }),
    decreases b.len(),
{
    if b.len() == 0 {
        assert(a + b =~= a);
        let (l1, o1) = apply_mailboxes(lines, a);
        assert(o1 + Seq::<OutcomeView>::empty() =~= o1);
    } else {
        assert((a + b).drop_last() =~= a + b.drop_last());
        assert((a + b).last() == b.last());
        lemma_apply_concat(lines, a, b.drop_last());
        let (l1, o1) = apply_mailboxes(lines, a);
        let (l2, o2) = apply_mailboxes(l1, b.drop_last());
        let (l3, o) = mailbox_step(l2, b.last());
        assert((o1 + o2).push(o) =~= o1 + o2.push(o));
    }
}

fn has_noreply_marker(lower: &Vec<char>) -> (r: bool)
    ensures
        r == is_noreply(lower@),
{
    let markers = vec![
        chars_of("noreply"),
        chars_of("no_reply"),
        chars_of("no-reply"),
        chars_of("not-reply"),
        chars_of("not_reply"),
        chars_of("do-not-reply"),
        chars_of("do_not_reply"),
        chars_of("donotreply"),
        chars_of("donotrespond"),
        chars_of("do-not-respond"),
    ];
    assert(char_views(markers@) =~= noreply_markers());
    let mut j: usize = 0;
    while j < markers.len()
        invariant
            char_views(markers@) == noreply_markers(),
            j <= markers.len(),
            forall|k: int| 0 <= k < j ==> !contains_seq(lower@, #[trigger] noreply_markers()[k]),
        decreases markers.len() - j,
    {
        assert(noreply_markers()[j as int] == markers@[j as int]@);
        if contains_in(lower, &markers[j]) {
            return true;
        }
        j = j + 1;
    }
    false
}

/// The normal form of a sanitized mailbox: bracketed when bare, and with a
/// space before `<`.
fn normal_form(s: &Vec<char>) -> (r: Vec<char>)
    ensures
        r@ == spaced_before_angle(bracketed(s@)),
{
    let b = if !contains_char_in(s, ' ') && !(s.len() > 0 && s[0] == '<') {
        let mut b: Vec<char> = Vec::new();
        b.push('<');
        append_chars(&mut b, s);
        b.push('>');
        assert(b@ =~= seq!['<'] + s@ + seq!['>']);
        b
    } else {
        s.clone()
    };
    match find_char_in(&b, '<') {
        Some(p) => {
            if p > 0 && b[p - 1] != ' ' {
                let mut r = slice_chars(&b, 0, p);
                r.push(' ');
                let len = b.len();
                let tail = slice_chars(&b, p, len);
                append_chars(&mut r, &tail);
                assert(r@ =~= b@.take(p as int) + seq![' '] + b@.skip(p as int));
                r
            } else {
                b
            }
        },
        None => b,
    }
}

impl EmailBook {
    /// Validates, normalizes, and adds a mailbox to the address book.
    pub fn match_mailbox(&mut self, line: &str) -> (r: MailboxOutcome)
        ensures
            (final(self)@, r@) == mailbox_step(old(self)@, line@),
    {
        let v = chars_of(line);
        if !contains_char_in(&v, '@') {
            return MailboxOutcome::NotAnAddress;
        }
        let lower = to_lowercase(line);
        let lc = chars_of(lower.as_str());
        if has_noreply_marker(&lc) {
            return MailboxOutcome::NoReply;
        }
        let decoded = match try_decode_encoded_words(line) {
            Some(d) => d,
            None => {
                return MailboxOutcome::Undecodable;
            },
        };
        let sanitized_text = sanitize_mailbox(decoded.as_str());
        let sc = chars_of(sanitized_text.as_str());
        let m = string_from_chars(normal_form(&sc));
        let toggled_m = toggle_quotes(m.as_str());
        if mailbox_in_list(m.as_str(), self.lines.as_slice()) || mailbox_in_list(
            toggled_m.as_str(),
            self.lines.as_slice(),
        ) {
            MailboxOutcome::Duplicate(m)
        } else {
            let added = m.clone();
            proof {
                lemma_views_push(self.lines@, added);
            }
            self.lines.push(added);
            MailboxOutcome::Added(m)
        }
    }

    /// Offers each mailbox of a joined header value to the book: newlines
    /// removed, split at unquoted commas, each part trimmed.
    pub fn process_line(&mut self, line: &str) -> (r: Vec<MailboxOutcome>)
        ensures
            (final(self)@, outcome_views(r@)) == apply_mailboxes(old(self)@, value_mailboxes(line@)),
    {
        let v = chars_of(line);
        let mut flat: Vec<char> = Vec::new();
        let mut i: usize = 0;
        while i < v.len()
            invariant
                i <= v.len(),
                flat@ == without_char(v@.take(i as int), '\n'),
            decreases v.len() - i,
        {
            assert(v@.take(i + 1).drop_last() == v@.take(i as int));
            if v[i] != '\n' {
                flat.push(v[i]);
            }
            i = i + 1;
        }
        assert(v@.take(v.len() as int) == v@);
        let flat_line = string_from_chars(flat);
        let parts = split_at_unquoted_commas(flat_line.as_str());
        let ghost cands = value_mailboxes(line@);
        let ghost start = self@;
        let mut outcomes: Vec<MailboxOutcome> = Vec::new();
        let mut k: usize = 0;
        assert(outcome_views(outcomes@) =~= Seq::<OutcomeView>::empty());
        while k < parts.len()
            invariant
                cands == value_mailboxes(line@),
                views(parts@) == unquoted_comma_pieces(without_char(line@, '\n')),
                cands.len() == parts.len(),
                k <= parts.len(),
                (self@, outcome_views(outcomes@)) == apply_mailboxes(start, cands.take(k as int)),
            decreases parts.len() - k,
        {
            let pc = chars_of(parts[k].as_str());
            let trimmed = string_from_chars(trim_chars(&pc));
            assert(views(parts@)[k as int] == parts@[k as int]@);
            assert(trimmed@ == cands[k as int]);
            assert(cands.take(k + 1).drop_last() =~= cands.take(k as int));
            let o = self.match_mailbox(trimmed.as_str());
            let ghost before = outcome_views(outcomes@);
            outcomes.push(o);
            assert(outcome_views(outcomes@) =~= before.push(o@));
            k = k + 1;
        }
        assert(cands.take(parts.len() as int) =~= cands);
        outcomes
    }

    /// Core header parsing: offers the mailboxes of the values of the header
    /// fields named by `fields` in `content` to the book, in order.
    pub fn parse_content(&mut self, content: &str, fields: &[&str]) -> (r: Vec<MailboxOutcome>)
        ensures
            (final(self)@, outcome_views(r@)) == apply_mailboxes(
                old(self)@,
                values_mailboxes(header_values(content@, str_views(fields@))),
            ),
    {
        let values = collect_header_values(content, fields);
        let ghost vs = char_views(values@);
        let ghost start = self@;
        let mut outcomes: Vec<MailboxOutcome> = Vec::new();
        let mut k: usize = 0;
        assert(values_mailboxes(vs.take(0)) =~= Seq::<Seq<char>>::empty());
        assert(outcome_views(outcomes@) =~= Seq::<OutcomeView>::empty());
        while k < values.len()
            invariant
                vs == char_views(values@),
                k <= values.len(),
                (self@, outcome_views(outcomes@)) == apply_mailboxes(
                    start,
                    values_mailboxes(vs.take(k as int)),
                ),
            decreases values.len() - k,
        {
            let value = string_from_chars(values[k].clone());
            assert(value@ == vs[k as int]);
            let ghost mid_book = self@;
            let ghost mid_outs = outcome_views(outcomes@);
            let more = self.process_line(value.as_str());
            proof {
                assert(vs.take(k + 1).drop_last() =~= vs.take(k as int));
                lemma_apply_concat(start, values_mailboxes(vs.take(k as int)), value_mailboxes(vs[k as int]));
            }
            let mut more = more;
            let ghost more_views = outcome_views(more@);
            outcomes.append(&mut more);
            assert(outcome_views(outcomes@) =~= mid_outs + more_views);
            k = k + 1;
        }
        assert(vs.take(values.len() as int) =~= vs);
        outcomes
    }
}

// ---------------------------------------------------------------------------
// Laws of the book
// ---------------------------------------------------------------------------

/// No entry occurs twice.
pub open spec fn distinct_entries(lines: Seq<Seq<char>>) -> bool {
    forall|i: int, j: int| 0 <= i < j < lines.len() ==> lines[i] != lines[j]
}

proof fn lemma_push_distinct(lines: Seq<Seq<char>>, m: Seq<char>)
    requires
        distinct_entries(lines),
        !in_list(m, lines),
    ensures
        distinct_entries(lines.push(m)),
{
    assert forall|i: int, j: int| 0 <= i < j < lines.push(m).len() implies lines.push(m)[i]
        != lines.push(m)[j] by {
        if j == lines.len() {
            assert(lines[i] != m);
        }
    }
}

/// Offering mailboxes never makes an entry occur twice, and only appends:
/// the earlier entries stay, in order, and every new entry was reported as
/// added.
pub proof fn offering_mailboxes_only_appends_new_entries(
    lines: Seq<Seq<char>>,
    cands: Seq<Seq<char>>,
)
    ensures
        lines.is_prefix_of(apply_mailboxes(lines, cands).0),
        distinct_entries(lines) ==> distinct_entries(apply_mailboxes(lines, cands).0),
        forall|i: int|
            lines.len() <= i < apply_mailboxes(lines, cands).0.len() ==> apply_mailboxes(
                lines,
                cands,
            ).1.contains(OutcomeView::Added(#[trigger] apply_mailboxes(lines, cands).0[i])),
    decreases cands.len(),
{
    if cands.len() > 0 {
        offering_mailboxes_only_appends_new_entries(lines, cands.drop_last());
        let (book, outs) = apply_mailboxes(lines, cands.drop_last());
        let (book2, o) = mailbox_step(book, cands.last());
        match classify_mailbox(cands.last()) {
            MailboxClass::Mailbox(m) => {
                if !(in_list(m, book) || in_list(toggled(m), book)) {
                    if distinct_entries(lines) {
                        lemma_push_distinct(book, m);
                    }
                }
            },
            _ => {},
        }
        assert forall|i: int| lines.len() <= i < book2.len() implies outs.push(o).contains(
            OutcomeView::Added(#[trigger] book2[i]),
        ) by {
            if i < book.len() {
                let w = choose|w: int| 0 <= w < outs.len() && outs[w] == OutcomeView::Added(book[i]);
                assert(outs.push(o)[w] == outs[w]);
            } else {
                assert(outs.push(o)[outs.len() as int] == o);
            }
        }
    }
}

/// Adding an entry that `add` accepts never makes an entry occur twice: a
/// keyed entry starts with its key, which no entry had.
pub proof fn adding_keeps_entries_distinct(
    lines: Seq<Seq<char>>,
    key: Option<Seq<char>>,
    value: Seq<char>,
)
    requires
        distinct_entries(lines),
        !already_present(lines, key, value),
    ensures
        distinct_entries(lines.push(entry_line(key, value))),
{
    let e = entry_line(key, value);
    match key {
        Some(k) => {
            assert(!in_list(e, lines)) by {
                if in_list(e, lines) {
                    let i = choose|i: int| 0 <= i < lines.len() && #[trigger] lines[i] == e;
                    assert(e.subrange(0, k.len() + 2 as int) =~= key_prefix(k));
                    assert(starts_with(lines[i], key_prefix(k)));
                }
            }
        },
        None => {},
    }
    lemma_push_distinct(lines, e);
}

/// Mailboxes with a no-reply marker are always ignored.
pub proof fn noreply_mailboxes_are_ignored(lines: Seq<Seq<char>>, line: Seq<char>)
    requires
        is_noreply(lowercase(line)),
    ensures
        mailbox_step(lines, line).0 == lines,
{
}

/// A mailbox with an `@` is answered `NoReply`, and leaves the book as it
/// is, exactly when its lowercased text holds one of the markers `noreply`,
/// `no_reply`, `no-reply`, `not-reply`, `not_reply`, `do-not-reply`,
/// `do_not_reply`, `donotreply`, `donotrespond` or `do-not-respond`.
pub proof fn noreply_markers_are_refused(lines: Seq<Seq<char>>, line: Seq<char>)
    requires
        contains_char(line, '@'),
    ensures
        ({
            let lower = lowercase(line);
            let marked = contains_seq(lower, "noreply"@) || contains_seq(lower, "no_reply"@)
                || contains_seq(lower, "no-reply"@) || contains_seq(lower, "not-reply"@)
                || contains_seq(lower, "not_reply"@) || contains_seq(lower, "do-not-reply"@)
                || contains_seq(lower, "do_not_reply"@) || contains_seq(lower, "donotreply"@)
                || contains_seq(lower, "donotrespond"@) || contains_seq(lower, "do-not-respond"@);
            &&& marked ==> mailbox_step(lines, line) == (lines, OutcomeView::NoReply)
            &&& mailbox_step(lines, line).1 == OutcomeView::NoReply ==> marked
        }),
{
    let lower = lowercase(line);
    let m = noreply_markers();
    assert(m[0] == "noreply"@);
    assert(m[1] == "no_reply"@);
    assert(m[2] == "no-reply"@);
    assert(m[3] == "not-reply"@);
    assert(m[4] == "not_reply"@);
    assert(m[5] == "do-not-reply"@);
    assert(m[6] == "do_not_reply"@);
    assert(m[7] == "donotreply"@);
    assert(m[8] == "donotrespond"@);
    assert(m[9] == "do-not-respond"@);
    if is_noreply(lower) {
        let j = choose|j: int| 0 <= j < m.len() && contains_seq(lower, #[trigger] m[j]);
        assert(0 <= j < 10);
    }
}

/// A plain e-mail address (no space, no leading `<`) is wrapped in angle
/// brackets.
pub proof fn plain_addresses_are_bracketed(s: Seq<char>)
    requires
        !contains_char(s, ' '),
        !(s.len() > 0 && s[0] == '<'),
    ensures
        spaced_before_angle(bracketed(s)) == seq!['<'] + s + seq!['>'],
{
    let b = seq!['<'] + s + seq!['>'];
    assert(b[0] == '<');
    assert(crate::text::is_first_char(b, '<', 0));
    crate::text::lemma_find_char_some(b, '<', 0);
}

/// Lines that an address-book file stores faithfully: none holds a newline
/// or ends with a carriage return, and the text does not start or end with
/// whitespace (the first line starts, and the last line ends, with a
/// non-whitespace character).
pub open spec fn storable_lines(lines: Seq<Seq<char>>) -> bool {
    &&& forall|i: int|
        0 <= i < lines.len() ==> !contains_char(#[trigger] lines[i], '\n') && !(lines[i].len() > 0
            && lines[i].last() == '\r')
    &&& lines.len() > 0 ==> lines[0].len() > 0 && !white_space(lines[0][0])
    &&& lines.len() > 0 ==> lines.last().len() > 0 && !white_space(lines.last().last())
}

proof fn lemma_join_first(l: Seq<Seq<char>>, c: char)
    requires
        l.len() >= 2,
    ensures
        join_with(l, c) == l[0].push(c) + join_with(l.drop_first(), c),
    decreases l.len(),
{
    if l.len() == 2 {
        assert(l.drop_last().len() == 1);
        assert(l.drop_first().len() == 1);
        assert(join_with(l.drop_first(), c) == l[1]);
        assert(join_with(l.drop_last(), c) == l[0]);
        assert(join_with(l, c) == join_with(l.drop_last(), c).push(c) + l.last());
        assert(l.last() == l[1]);
    } else {
        lemma_join_first(l.drop_last(), c);
        assert(l.drop_last().drop_first() =~= l.drop_first().drop_last());
        assert(l.drop_first().last() == l.last());
        assert(l.drop_last()[0] == l[0]);
        assert(join_with(l, c) == join_with(l.drop_last(), c).push(c) + l.last());
        assert(join_with(l.drop_first(), c) == join_with(l.drop_first().drop_last(), c).push(c)
            + l.drop_first().last());
        assert((l[0].push(c) + join_with(l.drop_first().drop_last(), c)).push(c) + l.last()
            =~= l[0].push(c) + (join_with(l.drop_first().drop_last(), c).push(c) + l.last()));
    }
}

proof fn lemma_lines_text_join(l: Seq<Seq<char>>)
    requires
        l.len() > 0,
    ensures
        lines_text(l) == join_with(l, '\n').push('\n'),
    decreases l.len(),
{
    if l.len() == 1 {
        assert(l.drop_last().len() == 0);
        assert(lines_text(l.drop_last()) == Seq::<char>::empty());
        assert(Seq::<char>::empty() + l[0].push('\n') =~= l[0].push('\n'));
    } else {
        lemma_lines_text_join(l.drop_last());
        assert(join_with(l.drop_last(), '\n').push('\n') + l.last().push('\n') =~= (join_with(
            l.drop_last(),
            '\n',
        ).push('\n') + l.last()).push('\n'));
    }
}

proof fn lemma_text_lines_join(l: Seq<Seq<char>>)
    requires
        l.len() > 0,
        l.last().len() > 0,
        forall|i: int|
            0 <= i < l.len() ==> !contains_char(#[trigger] l[i], '\n') && !(l[i].len() > 0
                && l[i].last() == '\r'),
    ensures
        text_lines(join_with(l, '\n')) == l,
    decreases l.len(),
{
    if l.len() == 1 {
        assert(join_with(l, '\n') == l[0]);
        crate::text::lemma_find_char_facts(l[0], '\n');
        assert(text_lines(l[0]) =~= seq![l[0]]);
        assert(l =~= seq![l[0]]);
    } else {
        lemma_join_first(l, '\n');
        let rest = l.drop_first();
        lemma_text_lines_join(rest);
        let s = join_with(l, '\n');
        let k = l[0].len() as int;
        assert(s[k] == '\n');
        assert(crate::text::is_first_char(s, '\n', k)) by {
            assert forall|j: int| 0 <= j < k implies s[j] != '\n' by {
                assert(s[j] == l[0][j]);
                assert(!contains_char(l[0], '\n'));
            }
        }
        crate::text::lemma_find_char_some(s, '\n', k);
        assert(s.take(k) =~= l[0]);
        assert(s.skip(k + 1) =~= join_with(rest, '\n'));
        assert(crate::text::strip_cr(l[0]) == l[0]);
        assert(seq![l[0]] + rest =~= l);
    }
}

/// Writing the book out and reading it back gives the same entries, for
/// entries that the file stores faithfully.
pub proof fn file_content_read_back(lines: Seq<Seq<char>>)
    requires
        storable_lines(lines),
    ensures
        text_lines(trim(lines_text(lines))) == lines,
{
    if lines.len() == 0 {
        assert(lines_text(lines) == Seq::<char>::empty());
        assert(!exists|i: int| #[trigger] crate::text::is_first_non_ws(Seq::<char>::empty(), i));
        assert(!exists|i: int| #[trigger] crate::text::is_last_non_ws(Seq::<char>::empty(), i));
        assert(text_lines(Seq::<char>::empty()) =~= Seq::<Seq<char>>::empty()) by {
            crate::text::lemma_find_char_facts(Seq::<char>::empty(), '\n');
        }
        assert(lines =~= Seq::<Seq<char>>::empty());
    } else {
        lemma_lines_text_join(lines);
        let j = join_with(lines, '\n');
        let t = j.push('\n');
        lemma_join_text_ends(lines);
        assert(crate::text::is_first_non_ws(t, 0));
        let f = choose|i: int| #[trigger] crate::text::is_first_non_ws(t, i);
        assert(f == 0) by {
            if f > 0 {
                assert(white_space(t[0]));
            }
        }
        assert(t.skip(0) =~= t);
        let last = j.len() - 1;
        assert(crate::text::is_last_non_ws(t, last));
        let g = choose|i: int| #[trigger] crate::text::is_last_non_ws(t, i);
        assert(g == last) by {
            if g < last {
                assert(white_space(t[last]));
            }
            if g > last {
                assert(g == j.len());
            }
        }
        assert(t.take(last + 1) =~= j);
        lemma_text_lines_join(lines);
    }
}

/// The joined text starts with the first line's first character and ends
/// with the last line's last character.
proof fn lemma_join_text_ends(l: Seq<Seq<char>>)
    requires
        l.len() > 0,
        l[0].len() > 0,
        l.last().len() > 0,
    ensures
        join_with(l, '\n').len() > 0,
        join_with(l, '\n')[0] == l[0][0],
        join_with(l, '\n').last() == l.last().last(),
    decreases l.len(),
{
    if l.len() >= 2 {
        lemma_join_first(l, '\n');
        let rest = l.drop_first();
        if rest.len() >= 2 {
            lemma_join_first(rest, '\n');
        }
        assert(join_with(l, '\n') == join_with(l.drop_last(), '\n').push('\n') + l.last());
    }
}

/// Once `add` has written a keyed entry, its key exists.
pub proof fn added_key_exists(lines: Seq<Seq<char>>, key: Seq<char>, value: Seq<char>)
    ensures
        has_key(lines.push(entry_line(Some(key), value)), key),
{
    let l2 = lines.push(entry_line(Some(key), value));
    let e = entry_line(Some(key), value);
    assert(e.subrange(0, key.len() + 2 as int) =~= key_prefix(key));
    assert(starts_with(l2[lines.len() as int], key_prefix(key)));
}

proof fn lemma_kept_unlisted(lines: Seq<Seq<char>>, indices: Seq<usize>)
    requires
        forall|k: int| 0 <= k < indices.len() ==> indices[k] >= lines.len(),
    ensures
        kept_lines(lines, indices) == lines,
    decreases lines.len(),
{
    if lines.len() > 0 {
        lemma_kept_unlisted(lines.drop_last(), indices);
        assert(!indices.contains((lines.len() - 1) as usize)) by {
            if indices.contains((lines.len() - 1) as usize) {
                let k = choose|k: int| 0 <= k < indices.len() && indices[k] == (lines.len() - 1) as usize;
                assert(indices[k] >= lines.len());
            }
        }
        assert(lines.drop_last().push(lines.last()) =~= lines);
    }
}

/// Removing the entry that was just added gives the book back.
pub proof fn removing_the_added_entry_restores_the_book(lines: Seq<Seq<char>>, entry: Seq<char>)
    requires
        lines.len() < usize::MAX,
    ensures
        kept_lines(lines.push(entry), seq![lines.len() as usize]) == lines,
{
    let l2 = lines.push(entry);
    let idx = seq![lines.len() as usize];
    assert(l2.drop_last() =~= lines);
    assert(idx.contains((l2.len() - 1) as usize)) by {
        assert(idx[0] == (l2.len() - 1) as usize);
    }
    lemma_kept_unlisted(lines, idx);
}

/// `m` is in the book as it is or with its quotes toggled.
pub open spec fn present(m: Seq<char>, lines: Seq<Seq<char>>) -> bool {
    in_list(m, lines) || in_list(toggled(m), lines)
}

/// An offered line leaves nothing to add to `lines`: it is no mailbox, or
/// its normal form is present.
pub open spec fn settled(line: Seq<char>, lines: Seq<Seq<char>>) -> bool {
    match classify_mailbox(line) {
        MailboxClass::Mailbox(m) => present(m, lines),
        _ => true,
    }
}

proof fn lemma_in_list_prefix(m: Seq<char>, lines: Seq<Seq<char>>, more: Seq<Seq<char>>)
    requires
        lines.is_prefix_of(more),
        in_list(m, lines),
    ensures
        in_list(m, more),
{
    let i = choose|i: int| 0 <= i < lines.len() && #[trigger] lines[i] == m;
    assert(more[i] == lines[i]);
}

proof fn lemma_settled_prefix(line: Seq<char>, lines: Seq<Seq<char>>, more: Seq<Seq<char>>)
    requires
        lines.is_prefix_of(more),
        settled(line, lines),
    ensures
        settled(line, more),
{
    match classify_mailbox(line) {
        MailboxClass::Mailbox(m) => {
            if in_list(m, lines) {
                lemma_in_list_prefix(m, lines, more);
            } else {
                lemma_in_list_prefix(toggled(m), lines, more);
            }
        },
        _ => {},
    }
}

proof fn lemma_apply_settles(lines: Seq<Seq<char>>, cands: Seq<Seq<char>>)
    ensures
        forall|k: int| 0 <= k < cands.len() ==> settled(#[trigger] cands[k], apply_mailboxes(lines, cands).0),
    decreases cands.len(),
{
    if cands.len() > 0 {
        let prev = cands.drop_last();
        lemma_apply_settles(lines, prev);
        let (book, outs) = apply_mailboxes(lines, prev);
        let (book2, o) = mailbox_step(book, cands.last());
        assert(book.is_prefix_of(book2));
        assert forall|k: int| 0 <= k < cands.len() implies settled(#[trigger] cands[k], book2) by {
            if k < prev.len() {
                assert(cands[k] == prev[k]);
                lemma_settled_prefix(cands[k], book, book2);
            } else {
                match classify_mailbox(cands.last()) {
                    MailboxClass::Mailbox(m) => {
                        if !present(m, book) {
                            assert(book2[book.len() as int] == m);
                        } else {
                            assert(book2 == book);
                        }
                    },
                    _ => {},
                }
            }
        }
    }
}

proof fn lemma_apply_settled_is_noop(lines: Seq<Seq<char>>, cands: Seq<Seq<char>>)
    requires
        forall|k: int| 0 <= k < cands.len() ==> settled(#[trigger] cands[k], lines),
    ensures
        apply_mailboxes(lines, cands).0 == lines,
    decreases cands.len(),
{
    if cands.len() > 0 {
        let prev = cands.drop_last();
        assert forall|k: int| 0 <= k < prev.len() implies settled(#[trigger] prev[k], lines) by {
            assert(prev[k] == cands[k]);
        }
        lemma_apply_settled_is_noop(lines, prev);
        assert(settled(cands[cands.len() - 1], lines));
    }
}

/// Parsing the same headers a second time adds nothing: every mailbox the
/// first pass found is then in the book, as it is or with toggled quotes.
pub proof fn parsing_twice_adds_nothing(lines: Seq<Seq<char>>, content: Seq<char>, fields: Seq<Seq<char>>)
    ensures
        ({
            let cands = values_mailboxes(header_values(content, fields));
            let once = apply_mailboxes(lines, cands).0;
            apply_mailboxes(once, cands).0 == once
        }),
{
    let cands = values_mailboxes(header_values(content, fields));
    lemma_apply_settles(lines, cands);
    lemma_apply_settled_is_noop(apply_mailboxes(lines, cands).0, cands);
}

} // verus!
