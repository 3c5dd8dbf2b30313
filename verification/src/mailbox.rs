//! Operations on mailbox strings and lists of them: quote toggling, splitting
//! a header value at unquoted commas, display-name quotes, membership.
use vstd::prelude::*;
use crate::text::{
    chars_of, contains_char, contains_char_in, contains_seq, find_char, find_seq, find_seq_in,
    is_first_char, is_first_occurrence, lemma_find_char_facts, lemma_find_char_some,
    lemma_find_seq_facts, occurs_at, slice_chars, string_from_chars, append_chars,
};

verus! {

/// The views of a sequence of strings.
pub open spec fn views(v: Seq<String>) -> Seq<Seq<char>> {
    v.map_values(|x: String| x@)
}

pub proof fn lemma_views_push(v: Seq<String>, x: String)
    ensures
        views(v.push(x)) == views(v).push(x@),
{
    assert(views(v.push(x)) =~= views(v).push(x@));
}

// ---------------------------------------------------------------------------
// Membership
// ---------------------------------------------------------------------------

/// `m` is one of the entries of `list`.
pub open spec fn in_list(m: Seq<char>, list: Seq<Seq<char>>) -> bool {
    exists|i: int| 0 <= i < list.len() && #[trigger] list[i] == m
}

/// Checks if the mailbox already exists in the list (exact match).
pub fn mailbox_in_list(mailbox: &str, list: &[String]) -> (r: bool)
    ensures
        r == in_list(mailbox@, views(list@)),
{
    let m = mailbox.to_owned();
    let mut i: usize = 0;
    while i < list.len()
        invariant
            m@ == mailbox@,
            i <= list.len(),
            forall|j: int| 0 <= j < i ==> #[trigger] views(list@)[j] != mailbox@,
        decreases list.len() - i,
    {
        if list[i] == m {
            assert(views(list@)[i as int] == mailbox@);
            return true;
        }
        i = i + 1;
    }
    false
}

// ---------------------------------------------------------------------------
// Quote toggling
// ---------------------------------------------------------------------------

/// `s` with every occurrence of `c` removed.
pub open spec fn without_char(s: Seq<char>, c: char) -> Seq<char>
    decreases s.len(),
{
    if s.len() == 0 {
        s
    } else if s.last() == c {
        without_char(s.drop_last(), c)
    } else {
        without_char(s.drop_last(), c).push(s.last())
    }
}

/// The pair of characters ` <` that separates a display name from its address.
pub open spec fn space_angle() -> Seq<char> {
    seq![' ', '<']
}

/// `John Doe <x>` becomes `"John Doe" <x>`; a mailbox that holds a double
/// quote loses all of them; anything else stays as it is.
pub open spec fn toggled(s: Seq<char>) -> Seq<char> {
    if contains_char(s, '"') {
        without_char(s, '"')
    } else {
        match find_seq(s, space_angle()) {
            Some(p) => seq!['"'] + s.take(p) + seq!['"', ' ', '<'] + s.skip(p + 2),
            None => s,
        }
    }
}

/// Toggles double quotes around the display name of a mailbox.
///
/// `John Doe <x>` becomes `"John Doe" <x>` and vice versa.
pub fn toggle_quotes(s: &str) -> (r: String)
    ensures
        r@ == toggled(s@),
{
    let v = chars_of(s);
    if contains_char_in(&v, '"') {
        let mut out: Vec<char> = Vec::new();
        let mut i: usize = 0;
        while i < v.len()
            invariant
                i <= v.len(),
                out@ == without_char(v@.take(i as int), '"'),
            decreases v.len() - i,
        {
            assert(v@.take(i + 1).drop_last() == v@.take(i as int));
            if v[i] != '"' {
                out.push(v[i]);
            }
            i = i + 1;
        }
        assert(v@.take(v.len() as int) == v@);
        return string_from_chars(out);
    }
    let pattern = vec![' ', '<'];
    assert(pattern@ == space_angle());
    match find_seq_in(&v, &pattern) {
        Some(p) => {
            let mut out: Vec<char> = Vec::new();
            out.push('"');
            let head = slice_chars(&v, 0, p);
            append_chars(&mut out, &head);
            out.push('"');
            out.push(' ');
            out.push('<');
            let tail = slice_chars(&v, p + 2, v.len());
            append_chars(&mut out, &tail);
            assert(out@ =~= seq!['"'] + v@.take(p as int) + seq!['"', ' ', '<'] + v@.skip(p + 2));
            string_from_chars(out)
        },
        None => string_from_chars(v),
    }
}

pub proof fn lemma_without_char_concat(a: Seq<char>, b: Seq<char>, c: char)
    ensures
        without_char(a + b, c) == without_char(a, c) + without_char(b, c),
    decreases b.len(),
{
    if b.len() == 0 {
        assert(a + b =~= a);
        assert(without_char(a, c) + without_char(b, c) =~= without_char(a, c));
    } else {
        assert((a + b).drop_last() =~= a + b.drop_last());
        assert((a + b).last() == b.last());
        lemma_without_char_concat(a, b.drop_last(), c);
        if b.last() == c {
        } else {
            assert(without_char(a, c) + without_char(b.drop_last(), c).push(b.last()) =~= (
            without_char(a, c) + without_char(b.drop_last(), c)).push(b.last()));
        }
    }
}

pub proof fn lemma_without_absent_char(s: Seq<char>, c: char)
    requires
        !contains_char(s, c),
    ensures
        without_char(s, c) == s,
    decreases s.len(),
{
    if s.len() > 0 {
        assert(!contains_char(s.drop_last(), c)) by {
            if contains_char(s.drop_last(), c) {
                let i = choose|i: int| 0 <= i < s.drop_last().len() && s.drop_last()[i] == c;
                assert(s[i] == c);
            }
        }
        lemma_without_absent_char(s.drop_last(), c);
        assert(s[s.len() - 1] != c);
        assert(s.drop_last().push(s.last()) =~= s);
    }
}

pub proof fn lemma_without_char_removes(s: Seq<char>, c: char)
    ensures
        !contains_char(without_char(s, c), c),
    decreases s.len(),
{
    if s.len() > 0 {
        lemma_without_char_removes(s.drop_last(), c);
        let w = without_char(s.drop_last(), c);
        if s.last() != c {
            if contains_char(w.push(s.last()), c) {
                let i = choose|i: int| 0 <= i < w.push(s.last()).len() && w.push(s.last())[i] == c;
                if i < w.len() {
                    assert(w[i] == c);
                }
            }
        }
    }
}

/// Toggling the quotes of an unquoted mailbox with a display name, and then
/// toggling again, gives the mailbox back.
pub proof fn toggle_quotes_round_trip(s: Seq<char>)
    requires
        !contains_char(s, '"'),
        find_seq(s, space_angle()) is Some,
    ensures
        toggled(toggled(s)) == s,
{
    let p = find_seq(s, space_angle())->0;
    lemma_find_seq_facts(s, space_angle());
    assert(occurs_at(s, space_angle(), p));
    let t = toggled(s);
    assert(t == seq!['"'] + s.take(p) + seq!['"', ' ', '<'] + s.skip(p + 2));
    assert(t[0] == '"');
    assert(contains_char(t, '"'));
    let head = s.take(p);
    let tail = s.skip(p + 2);
    assert(!contains_char(head, '"')) by {
        if contains_char(head, '"') {
            let i = choose|i: int| 0 <= i < head.len() && head[i] == '"';
            assert(s[i] == '"');
        }
    }
    assert(!contains_char(tail, '"')) by {
        if contains_char(tail, '"') {
            let i = choose|i: int| 0 <= i < tail.len() && tail[i] == '"';
            assert(s[p + 2 + i] == '"');
        }
    }
    lemma_without_char_concat(seq!['"'] + head + seq!['"', ' ', '<'], tail, '"');
    lemma_without_char_concat(seq!['"'] + head, seq!['"', ' ', '<'], '"');
    lemma_without_char_concat(seq!['"'], head, '"');
    lemma_without_absent_char(head, '"');
    lemma_without_absent_char(tail, '"');
    reveal_with_fuel(without_char, 4);
    assert(without_char(seq!['"'], '"') =~= Seq::<char>::empty()) by {
        assert(seq!['"'].drop_last() =~= Seq::<char>::empty());
    }
    assert(without_char(seq!['"', ' ', '<'], '"') =~= seq![' ', '<']) by {
        assert(seq!['"', ' ', '<'].drop_last() =~= seq!['"', ' ']);
        assert(seq!['"', ' '].drop_last() =~= seq!['"']);
        assert(seq!['"'].drop_last() =~= Seq::<char>::empty());
    }
    assert(s.subrange(p, p + 2) == space_angle());
    assert(head + seq![' ', '<'] + tail =~= s);
    assert(Seq::<char>::empty() + head =~= head);
}

/// Toggling the quotes of a quoted display name, and then toggling again,
/// gives the mailbox back (the name holding no ` <` and neither part a
/// double quote).
pub proof fn toggle_quotes_round_trip_quoted(name: Seq<char>, rest: Seq<char>)
    requires
        !contains_char(name, '"'),
        !contains_char(rest, '"'),
        !contains_seq(name, space_angle()),
    ensures
        ({
            let q = seq!['"'] + name + seq!['"', ' ', '<'] + rest;
            toggled(toggled(q)) == q
        }),
{
    let q = seq!['"'] + name + seq!['"', ' ', '<'] + rest;
    assert(q[0] == '"');
    let u = name + seq![' ', '<'] + rest;
    lemma_without_char_concat(seq!['"'] + name + seq!['"', ' ', '<'], rest, '"');
    lemma_without_char_concat(seq!['"'] + name, seq!['"', ' ', '<'], '"');
    lemma_without_char_concat(seq!['"'], name, '"');
    lemma_without_absent_char(name, '"');
    lemma_without_absent_char(rest, '"');
    reveal_with_fuel(without_char, 4);
    assert(without_char(seq!['"'], '"') =~= Seq::<char>::empty()) by {
        assert(seq!['"'].drop_last() =~= Seq::<char>::empty());
    }
    assert(without_char(seq!['"', ' ', '<'], '"') =~= seq![' ', '<']) by {
        assert(seq!['"', ' ', '<'].drop_last() =~= seq!['"', ' ']);
        assert(seq!['"', ' '].drop_last() =~= seq!['"']);
        assert(seq!['"'].drop_last() =~= Seq::<char>::empty());
    }
    assert(Seq::<char>::empty() + name =~= name);
    assert(toggled(q) == u);
    assert(!contains_char(u, '"')) by {
        if contains_char(u, '"') {
            let i = choose|i: int| 0 <= i < u.len() && u[i] == '"';
            if i < name.len() {
                assert(name[i] == '"');
            } else if i >= name.len() + 2 {
                assert(rest[i - name.len() - 2] == '"');
            }
        }
    }
    let p = name.len() as int;
    assert(u.subrange(p, p + 2) =~= space_angle());
    assert forall|j: int| 0 <= j < p implies !#[trigger] occurs_at(u, space_angle(), j) by {
        if occurs_at(u, space_angle(), j) {
            if j + 2 <= p {
                assert(u.subrange(j, j + 2) =~= name.subrange(j, j + 2));
                assert(occurs_at(name, space_angle(), j));
            } else {
                assert(u.subrange(j, j + 2)[1] == u[p]);
            }
        }
    }
    assert(is_first_occurrence(u, space_angle(), p));
    crate::text::lemma_find_seq_some(u, space_angle(), p);
    assert(u.take(p) =~= name);
    assert(u.skip(p + 2) =~= rest);
}

// ---------------------------------------------------------------------------
// Splitting a header value into mailboxes
// ---------------------------------------------------------------------------

/// The pieces of `s[i..]` still to be cut, given the quoting state, the start
/// of the current piece, and the pieces cut so far. Commas inside double
/// quotes do not cut; inside quotes a backslash protects the next character.
pub open spec fn split_scan(
    s: Seq<char>,
    i: int,
    quoted: bool,
    start: int,
    pieces: Seq<Seq<char>>,
) -> Seq<Seq<char>>
    decreases s.len() + 1 - i,
{
    if 0 <= i < s.len() {
        if quoted {
            if s[i] == '\\' {
                split_scan(s, i + 2, true, start, pieces)
            } else if s[i] == '"' {
                split_scan(s, i + 1, false, start, pieces)
            } else {
                split_scan(s, i + 1, true, start, pieces)
            }
        } else if s[i] == '"' {
            split_scan(s, i + 1, true, start, pieces)
        } else if s[i] == ',' {
            split_scan(s, i + 1, false, i + 1, pieces.push(s.subrange(start, i)))
        } else {
            split_scan(s, i + 1, false, start, pieces)
        }
    } else {
        pieces.push(s.subrange(start, s.len() as int))
    }
}

/// The pieces of `s` between its unquoted commas.
pub open spec fn unquoted_comma_pieces(s: Seq<char>) -> Seq<Seq<char>> {
    split_scan(s, 0, false, 0, Seq::empty())
}

/// Splits a string at commas that are not inside double quotes.
pub fn split_at_unquoted_commas(s: &str) -> (r: Vec<String>)
    ensures
        views(r@) == unquoted_comma_pieces(s@),
{
    let v = chars_of(s);
    let n = v.len();
    let mut result: Vec<String> = Vec::new();
    let mut quoted = false;
    let mut start: usize = 0;
    let mut i: usize = 0;
    assert(views(result@) =~= Seq::<Seq<char>>::empty());
    while i < n
        invariant
            n == v.len(),
            v@ == s@,
            start <= i,
            start <= n,
            i <= n,
            split_scan(v@, i as int, quoted, start as int, views(result@))
                == unquoted_comma_pieces(s@),
        decreases n - i,
    {
        let ghost old_i = i as int;
        let ghost old_quoted = quoted;
        let ghost old_start = start as int;
        let ghost old_pieces = views(result@);
        let mut next = i + 1;
        if quoted {
            if v[i] == '\\' {
                if i + 1 < n {
                    next = i + 2;
                } else {
                    next = n;
                    assert(split_scan(v@, n + 1, true, start as int, views(result@)) == split_scan(
                        v@,
                        n as int,
                        true,
                        start as int,
                        views(result@),
                    ));
                }
            } else if v[i] == '"' {
                quoted = false;
            }
        } else if v[i] == '"' {
            quoted = true;
        } else if v[i] == ',' {
            let piece = slice_chars(&v, start, i);
            let p = string_from_chars(piece);
            proof {
                lemma_views_push(result@, p);
            }
            result.push(p);
            start = i + 1;
        }
        i = next;
        assert(split_scan(v@, old_i, old_quoted, old_start, old_pieces) == split_scan(
            v@,
            i as int,
            quoted,
            start as int,
            views(result@),
        ));
    }
    let last = slice_chars(&v, start, n);
    let p = string_from_chars(last);
    proof {
        lemma_views_push(result@, p);
    }
    result.push(p);
    result
}

/// The pieces joined back together, with `sep` between neighbours.
pub open spec fn join_with(pieces: Seq<Seq<char>>, sep: char) -> Seq<char>
    decreases pieces.len(),
{
    if pieces.len() == 0 {
        Seq::empty()
    } else if pieces.len() == 1 {
        pieces[0]
    } else {
        join_with(pieces.drop_last(), sep).push(sep) + pieces.last()
    }
}

/// What the pieces cut so far say about the input: joined and followed by a
/// comma, they are exactly the input before `start`.
pub open spec fn cut_so_far(s: Seq<char>, start: int, pieces: Seq<Seq<char>>) -> bool {
    &&& 0 <= start <= s.len()
    &&& pieces.len() == 0 ==> start == 0
    &&& pieces.len() > 0 ==> join_with(pieces, ',').push(',') == s.take(start)
}

proof fn lemma_split_scan_joins(
    s: Seq<char>,
    i: int,
    quoted: bool,
    start: int,
    pieces: Seq<Seq<char>>,
)
    requires
        0 <= i,
        start <= i,
        start <= s.len(),
        cut_so_far(s, start, pieces),
    ensures
        join_with(split_scan(s, i, quoted, start, pieces), ',') == s,
    decreases s.len() + 1 - i,
{
    if 0 <= i < s.len() {
        if quoted {
            if s[i] == '\\' {
                lemma_split_scan_joins(s, i + 2, true, start, pieces);
            } else if s[i] == '"' {
                lemma_split_scan_joins(s, i + 1, false, start, pieces);
            } else {
                lemma_split_scan_joins(s, i + 1, true, start, pieces);
            }
        } else if s[i] == '"' {
            lemma_split_scan_joins(s, i + 1, true, start, pieces);
        } else if s[i] == ',' {
            let np = pieces.push(s.subrange(start, i));
            assert(np.drop_last() == pieces);
            if pieces.len() == 0 {
                assert(join_with(np, ',') == s.subrange(0, i));
            } else {
                assert(join_with(np, ',') == join_with(pieces, ',').push(',') + s.subrange(start, i));
            }
            assert(join_with(np, ',').push(',') =~= s.take(i + 1));
            lemma_split_scan_joins(s, i + 1, false, i + 1, np);
        } else {
            lemma_split_scan_joins(s, i + 1, false, start, pieces);
        }
    } else {
        let np = pieces.push(s.subrange(start, s.len() as int));
        assert(np.drop_last() == pieces);
        if pieces.len() == 0 {
            assert(s.subrange(0, s.len() as int) =~= s);
        } else {
            assert(join_with(np, ',') == join_with(pieces, ',').push(',') + s.subrange(
                start,
                s.len() as int,
            ));
            assert(s.take(start) + s.subrange(start, s.len() as int) =~= s);
        }
    }
}

/// Joining the pieces of a header value with commas gives the value back:
/// splitting loses no character other than the separating commas.
pub proof fn split_then_join(s: Seq<char>)
    ensures
        join_with(unquoted_comma_pieces(s), ',') == s,
{
    lemma_split_scan_joins(s, 0, false, 0, Seq::empty());
}

/// `s` cut at every occurrence of `c` (`str::split` on a character).
pub open spec fn split_at_char(s: Seq<char>, c: char) -> Seq<Seq<char>>
    decreases s.len(),
{
    match find_char(s, c) {
        Some(k) => {
            proof {
                lemma_find_char_facts(s, c);
            }
            seq![s.take(k)] + split_at_char(s.skip(k + 1), c)
        },
        None => seq![s],
    }
}

proof fn lemma_split_scan_grows(s: Seq<char>, i: int, quoted: bool, start: int, pieces: Seq<Seq<char>>)
    ensures
        split_scan(s, i, quoted, start, pieces).len() > pieces.len(),
    decreases s.len() + 1 - i,
{
    if 0 <= i < s.len() {
        if quoted {
            if s[i] == '\\' {
                lemma_split_scan_grows(s, i + 2, true, start, pieces);
            } else if s[i] == '"' {
                lemma_split_scan_grows(s, i + 1, false, start, pieces);
            } else {
                lemma_split_scan_grows(s, i + 1, true, start, pieces);
            }
        } else if s[i] == '"' {
            lemma_split_scan_grows(s, i + 1, true, start, pieces);
        } else if s[i] == ',' {
            lemma_split_scan_grows(s, i + 1, false, i + 1, pieces.push(s.subrange(start, i)));
        } else {
            lemma_split_scan_grows(s, i + 1, false, start, pieces);
        }
    }
}

proof fn lemma_split_scan_unquoted(s: Seq<char>, i: int, start: int, pieces: Seq<Seq<char>>)
    requires
        0 <= start <= i <= s.len(),
        forall|j: int| start <= j < i ==> s[j] != ',',
        forall|j: int| i <= j < s.len() ==> s[j] != '"',
    ensures
        split_scan(s, i, false, start, pieces) == pieces + split_at_char(s.skip(start), ','),
    decreases s.len() - i,
{
    let t = s.skip(start);
    if i < s.len() {
        if s[i] == ',' {
            let k = i - start;
            assert(is_first_char(t, ',', k)) by {
                assert forall|j: int| 0 <= j < k implies t[j] != ',' by {
                    assert(t[j] == s[start + j]);
                }
            }
            lemma_find_char_some(t, ',', k);
            let piece = s.subrange(start, i);
            assert(t.take(k) =~= piece);
            assert(t.skip(k + 1) =~= s.skip(i + 1));
            lemma_split_scan_unquoted(s, i + 1, i + 1, pieces.push(piece));
            assert(pieces.push(piece) + split_at_char(s.skip(i + 1), ',') =~= pieces + (seq![piece]
                + split_at_char(s.skip(i + 1), ',')));
        } else {
            lemma_split_scan_unquoted(s, i + 1, start, pieces);
        }
    } else {
        assert(!contains_char(t, ',')) by {
            if contains_char(t, ',') {
                let j = choose|j: int| 0 <= j < t.len() && t[j] == ',';
                assert(t[j] == s[start + j]);
            }
        }
        lemma_find_char_facts(t, ',');
        assert(s.subrange(start, s.len() as int) =~= t);
        assert(pieces.push(t) =~= pieces + seq![t]);
    }
}

/// Splitting a header value gives at least one piece, and on a value without
/// double quotes it is splitting at every comma.
pub proof fn split_without_quotes_is_split_at_commas(s: Seq<char>)
    ensures
        unquoted_comma_pieces(s).len() >= 1,
        !contains_char(s, '"') ==> unquoted_comma_pieces(s) == split_at_char(s, ','),
{
    lemma_split_scan_grows(s, 0, false, 0, Seq::empty());
    if !contains_char(s, '"') {
        assert forall|j: int| 0 <= j < s.len() implies s[j] != '"' by {
            if s[j] == '"' {
                assert(contains_char(s, '"'));
            }
        }
        lemma_split_scan_unquoted(s, 0, 0, Seq::empty());
        assert(s.skip(0) =~= s);
        assert(Seq::<Seq<char>>::empty() + split_at_char(s, ',') =~= split_at_char(s, ','));
    }
}

// ---------------------------------------------------------------------------
// Unneeded quotes around a display name
// ---------------------------------------------------------------------------

/// The position of the double quote that closes a quoted string whose body
/// starts at `i`; a backslash protects the character after it. A result at or
/// past the end means the quote is never closed.
pub open spec fn closing_quote(s: Seq<char>, i: int) -> int
    decreases s.len() + 1 - i,
{
    if 0 <= i < s.len() {
        if s[i] == '\\' {
            closing_quote(s, i + 2)
        } else if s[i] == '"' {
            i
        } else {
            closing_quote(s, i + 1)
        }
    } else {
        i
    }
}

/// A character that forces a display name to stay quoted: an RFC 5322
/// special, or anything outside printable ASCII.
pub open spec fn needs_quoting(c: char) -> bool {
    ||| c == '(' || c == ')' || c == '<' || c == '>' || c == '[' || c == ']'
    ||| c == ':' || c == ';' || c == '@' || c == '\\' || c == ',' || c == '.' || c == '"'
    ||| (c as u32) < 0x20 || (c as u32) > 0x7e
}

/// `"Name" <addr>` without its quotes, when the name is non-empty and holds
/// no character that needs quoting; `None` when the quotes must stay or the
/// string is not of that shape.
pub open spec fn without_display_quotes(s: Seq<char>) -> Option<Seq<char>> {
    if !(s.len() > 0 && s[0] == '"') {
        None
    } else {
        let close = closing_quote(s, 1);
        if close >= s.len() {
            None
        } else {
            let display = s.subrange(1, close);
            let after = s.skip(close + 1);
            if !(after.len() >= 2 && after[0] == ' ' && after[1] == '<') {
                None
            } else if display.len() == 0 {
                None
            } else if exists|j: int| 0 <= j < display.len() && #[trigger] needs_quoting(display[j]) {
                None
            } else {
                Some(display + after)
            }
        }
    }
}

fn needs_quoting_exec(c: char) -> (r: bool)
    ensures
        r == needs_quoting(c),
{
    c == '(' || c == ')' || c == '<' || c == '>' || c == '[' || c == ']' || c == ':' || c == ';'
        || c == '@' || c == '\\' || c == ',' || c == '.' || c == '"' || (c as u32) < 0x20 || (
    c as u32) > 0x7e
}

/// Strips double quotes from the display name when they are unnecessary,
/// i.e. the display name contains no RFC 5322 special characters and is pure
/// ASCII. Returns `None` when the quotes are needed or `s` is not a quoted
/// display name followed by ` <`.
///
/// `sanitize_mailbox` does not apply this: it keeps quoted display names.
pub fn strip_unnecessary_display_quotes(s: &str) -> (r: Option<String>)
    ensures
        r is Some <==> without_display_quotes(s@) is Some,
        r matches Some(t) ==> t@ == without_display_quotes(s@)->0,
{
    let v = chars_of(s);
    let n = v.len();
    if !(n > 0 && v[0] == '"') {
        return None;
    }
    let mut i: usize = 1;
    while i < n
        invariant
            n == v.len(),
            v@ == s@,
            1 <= i <= n,
            closing_quote(v@, i as int) == closing_quote(v@, 1),
        ensures
            i < n ==> closing_quote(v@, 1) == i as int,
            i >= n ==> closing_quote(v@, 1) >= n,
        decreases n - i,
    {
        if v[i] == '\\' {
            if i + 1 < n {
                i = i + 2;
            } else {
                assert(closing_quote(v@, n + 1) == n + 1);
                return None;
            }
        } else if v[i] == '"' {
            break;
        } else {
            i = i + 1;
        }
    }
    if i >= n {
        return None;
    }
    let close = i;
    if !(n - (close + 1) >= 2 && v[close + 1] == ' ' && v[close + 2] == '<') {
        return None;
    }
    if close == 1 {
        return None;
    }
    let mut j: usize = 1;
    while j < close
        invariant
            close < n == v.len(),
            v@ == s@,
            v@[0] == '"',
            closing_quote(v@, 1) == close as int,
            n - (close + 1) >= 2 && v@[close + 1] == ' ' && v@[close + 2] == '<',
            close != 1,
            1 <= j <= close,
            forall|k: int| 1 <= k < j ==> !needs_quoting(v@[k]),
        decreases close - j,
    {
        if needs_quoting_exec(v[j]) {
            assert(needs_quoting(v@.subrange(1, close as int)[j - 1]));
            return None;
        }
        j = j + 1;
    }
    let ghost display = v@.subrange(1, close as int);
    assert(!exists|k: int| 0 <= k < display.len() && #[trigger] needs_quoting(display[k])) by {
        assert forall|k: int| 0 <= k < display.len() implies !#[trigger] needs_quoting(display[k]) by {
            assert(display[k] == v@[k + 1]);
        }
    }
    let mut out = slice_chars(&v, 1, close);
    let after = slice_chars(&v, close + 1, n);
    append_chars(&mut out, &after);
    Some(string_from_chars(out))
}


} // verus!
