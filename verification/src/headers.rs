//! The header section of an e-mail: which header fields to read, and the
//! values of those fields, continuation lines joined.
use vstd::prelude::*;
use crate::text::{
    char_views, chars_of, lines_of, matches_at, starts_with, text_lines, trim_start,
    trim_start_chars, append_chars, slice_chars, is_first_char, lemma_find_char_some,
    lemma_find_char_facts, strip_cr, lemma_text_lines_after_newline, lemma_text_lines_push_newline,
    contains_char,
};

verus! {

/// Which header fields `parse` reads addresses from.
#[derive(Clone, Copy, Debug)]
pub enum ParseSource {
    From,
    To,
    Cc,
    Bcc,
    All,
}

/// The views of a sequence of string slices.
pub open spec fn str_views(v: Seq<&str>) -> Seq<Seq<char>> {
    v.map_values(|x: &str| x@)
}

/// The field-name prefixes (with their colon) that a source stands for.
pub open spec fn source_fields(src: ParseSource) -> Seq<Seq<char>> {
    match src {
        ParseSource::All => seq!["From:"@, "To:"@, "Cc:"@, "CC:"@, "Bcc:"@],
        ParseSource::From => seq!["From:"@],
        ParseSource::To => seq!["To:"@],
        ParseSource::Cc => seq!["Cc:"@, "CC:"@],
        ParseSource::Bcc => seq!["Bcc:"@],
    }
}

impl ParseSource {
    /// The header field prefixes to parse for this source.
    pub fn to_fields(&self) -> (r: Vec<&'static str>)
        ensures
            str_views(r@) == source_fields(*self),
    {
        let r = match self {
            ParseSource::All => vec!["From:", "To:", "Cc:", "CC:", "Bcc:"],
            ParseSource::From => vec!["From:"],
            ParseSource::To => vec!["To:"],
            ParseSource::Cc => vec!["Cc:", "CC:"],
            ParseSource::Bcc => vec!["Bcc:"],
        };
        assert(str_views(r@) =~= source_fields(*self));
        r
    }
}

/// `i` is the first index whose prefix `s` starts with.
pub open spec fn is_first_prefix(s: Seq<char>, prefixes: Seq<Seq<char>>, i: int) -> bool {
    &&& 0 <= i < prefixes.len()
    &&& starts_with(s, prefixes[i])
    &&& forall|j: int| 0 <= j < i ==> !starts_with(s, #[trigger] prefixes[j])
}

/// The index of the first prefix that `s` starts with.
pub open spec fn first_prefix(s: Seq<char>, prefixes: Seq<Seq<char>>) -> Option<int> {
    if exists|i: int| #[trigger] is_first_prefix(s, prefixes, i) {
        Some(choose|i: int| #[trigger] is_first_prefix(s, prefixes, i))
    } else {
        None
    }
}

/// The index of the first prefix that `s` starts with.
fn first_prefix_in(s: &Vec<char>, prefixes: &Vec<Vec<char>>) -> (r: Option<usize>)
    ensures
        r matches Some(i) ==> first_prefix(s@, char_views(prefixes@)) == Some(i as int) && i
            < prefixes.len(),
        r is None ==> first_prefix(s@, char_views(prefixes@)) is None,
{
    let ghost ps = char_views(prefixes@);
    let mut i: usize = 0;
    while i < prefixes.len()
        invariant
            ps == char_views(prefixes@),
            i <= prefixes.len(),
            forall|j: int| 0 <= j < i ==> !starts_with(s@, #[trigger] ps[j]),
        decreases prefixes.len() - i,
    {
        if matches_at(s, &prefixes[i], 0) {
            assert(ps[i as int] == prefixes@[i as int]@);
            assert(is_first_prefix(s@, ps, i as int));
            let ghost k = choose|k: int| #[trigger] is_first_prefix(s@, ps, k);
            assert(k == i) by {
                if k < i {
                    assert(!starts_with(s@, ps[k]));
                }
                if i < k {
                    assert(!starts_with(s@, ps[i as int]));
                }
            }
            return Some(i);
        }
        assert(ps[i as int] == prefixes@[i as int]@);
        i = i + 1;
    }
    assert(!exists|k: int| #[trigger] is_first_prefix(s@, ps, k)) by {
        if exists|k: int| #[trigger] is_first_prefix(s@, ps, k) {
            let k = choose|k: int| #[trigger] is_first_prefix(s@, ps, k);
            assert(!starts_with(s@, ps[k]));
        }
    }
    None
}

/// The characters of each string slice.
fn chars_of_each(v: &[&str]) -> (r: Vec<Vec<char>>)
    ensures
        char_views(r@) == str_views(v@),
{
    let mut r: Vec<Vec<char>> = Vec::new();
    let mut i: usize = 0;
    while i < v.len()
        invariant
            i <= v.len(),
            char_views(r@) == str_views(v@).take(i as int),
        decreases v.len() - i,
    {
        let c = chars_of(v[i]);
        let ghost before = char_views(r@);
        r.push(c);
        assert(char_views(r@) =~= before.push(c@));
        assert(str_views(v@).take(i + 1) =~= str_views(v@).take(i as int).push(v@[i as int]@));
        i = i + 1;
    }
    assert(str_views(v@).take(v.len() as int) =~= str_views(v@));
    r
}

/// Returns the index of the first matching prefix, if any.
pub fn starts_with_any(s: &str, prefixes: &[&str]) -> (r: Option<usize>)
    ensures
        r matches Some(i) ==> first_prefix(s@, str_views(prefixes@)) == Some(i as int),
        r is None ==> first_prefix(s@, str_views(prefixes@)) is None,
{
    let v = chars_of(s);
    let ps = chars_of_each(prefixes);
    first_prefix_in(&v, &ps)
}

/// A folded continuation line: it starts with a space or a tab.
pub open spec fn is_continuation(l: Seq<char>) -> bool {
    l.len() > 0 && (l[0] == ' ' || l[0] == '\t')
}

/// The header values still to be collected from `lines[i..]`: `joined` is the
/// value being built, `continuing` whether folded lines still extend it, and
/// `values` the values already complete. The header section ends at the
/// first empty line; a line that starts with one of `fields` completes the
/// pending value and starts a new one (the field name cut off and leading
/// whitespace trimmed); a folded line extends the value while `continuing`;
/// any other line stops the extension.
pub open spec fn header_scan(
    lines: Seq<Seq<char>>,
    fields: Seq<Seq<char>>,
    i: int,
    continuing: bool,
    joined: Seq<char>,
    values: Seq<Seq<char>>,
) -> Seq<Seq<char>>
    decreases lines.len() - i,
{
    if 0 <= i < lines.len() && lines[i].len() > 0 {
        let l = lines[i];
        match first_prefix(l, fields) {
            Some(f) => {
                let done = if joined.len() > 0 {
                    values.push(joined)
                } else {
                    values
                };
                header_scan(lines, fields, i + 1, true, trim_start(l.skip(fields[f].len() as int)), done)
            },
            None => if continuing && is_continuation(l) {
                header_scan(lines, fields, i + 1, true, joined + l, values)
            } else {
                header_scan(lines, fields, i + 1, false, joined, values)
            },
        }
    } else if joined.len() > 0 {
        values.push(joined)
    } else {
        values
    }
}

/// The values of the header fields named by `fields` in the header section
/// of `content`, in order of appearance.
pub open spec fn header_values(content: Seq<char>, fields: Seq<Seq<char>>) -> Seq<Seq<char>> {
    header_scan(text_lines(content), fields, 0, false, Seq::empty(), Seq::empty())
}

pub proof fn lemma_first_prefix_facts(s: Seq<char>, prefixes: Seq<Seq<char>>)
    ensures
        first_prefix(s, prefixes) matches Some(i) ==> is_first_prefix(s, prefixes, i),
{
}

/// The values of the header fields named by `fields` in `content`.
pub fn collect_header_values(content: &str, fields: &[&str]) -> (r: Vec<Vec<char>>)
    ensures
        char_views(r@) == header_values(content@, str_views(fields@)),
{
    let c = chars_of(content);
    let lines = lines_of(&c);
    let fs = chars_of_each(fields);
    let ghost lv = char_views(lines@);
    let ghost fv = char_views(fs@);
    let mut values: Vec<Vec<char>> = Vec::new();
    let mut joined: Vec<char> = Vec::new();
    let mut continuing = false;
    let mut i: usize = 0;
    assert(char_views(values@) =~= Seq::<Seq<char>>::empty());
    while i < lines.len()
        invariant
            lv == char_views(lines@),
            fv == char_views(fs@),
            fv == str_views(fields@),
            lv == text_lines(content@),
            i <= lines.len(),
            header_scan(lv, fv, i as int, continuing, joined@, char_views(values@)) == header_values(
                content@,
                fv,
            ),
        ensures
            header_scan(lv, fv, i as int, continuing, joined@, char_views(values@)) == header_values(
                content@,
                fv,
            ),
            i >= lines.len() || lv[i as int].len() == 0,
        decreases lines.len() - i,
    {
        let line = &lines[i];
        assert(lv[i as int] == line@);
        if line.len() == 0 {
            break;
        }
        let ghost before = char_views(values@);
        match first_prefix_in(line, &fs) {
            Some(f) => {
                proof {
                    lemma_first_prefix_facts(line@, fv);
                }
                if joined.len() > 0 {
                    let done = joined;
                    values.push(done);
                    assert(char_views(values@) =~= before.push(done@));
                }
                assert(fv[f as int] == fs@[f as int]@);
                let field_len = fs[f].len();
                let rest = slice_chars(line, field_len, line.len());
                assert(rest@ =~= line@.skip(field_len as int));
                joined = trim_start_chars(&rest);
                continuing = true;
            },
            None => {
                if continuing && line.len() > 0 && (line[0] == ' ' || line[0] == '\t') {
                    append_chars(&mut joined, line);
                } else {
                    continuing = false;
                }
            },
        }
        i = i + 1;
    }
    if joined.len() > 0 {
        let ghost before = char_views(values@);
        values.push(joined);
        assert(char_views(values@) =~= before.push(joined@));
    }
    values
}

proof fn lemma_scan_stops_at_empty(
    p: Seq<Seq<char>>,
    q: Seq<Seq<char>>,
    fields: Seq<Seq<char>>,
    i: int,
    continuing: bool,
    joined: Seq<char>,
    values: Seq<Seq<char>>,
)
    requires
        0 <= i <= p.len(),
    ensures
        header_scan(p + seq![Seq::<char>::empty()] + q, fields, i, continuing, joined, values)
            == header_scan(p, fields, i, continuing, joined, values),
    decreases p.len() - i,
{
    let all = p + seq![Seq::<char>::empty()] + q;
    if i < p.len() {
        assert(all[i] == p[i]);
        if p[i].len() > 0 {
            let l = p[i];
            match first_prefix(l, fields) {
                Some(f) => {
                    let done = if joined.len() > 0 {
                        values.push(joined)
                    } else {
                        values
                    };
                    lemma_scan_stops_at_empty(
                        p,
                        q,
                        fields,
                        i + 1,
                        true,
                        trim_start(l.skip(fields[f].len() as int)),
                        done,
                    );
                },
                None => {
                    if continuing && is_continuation(l) {
                        lemma_scan_stops_at_empty(p, q, fields, i + 1, true, joined + l, values);
                    } else {
                        lemma_scan_stops_at_empty(p, q, fields, i + 1, false, joined, values);
                    }
                },
            }
        }
    } else {
        assert(all[i].len() == 0);
    }
}

/// Header values are read only up to the first empty line: text after a
/// blank line that follows the headers is never read.
pub proof fn header_values_stop_at_empty_line(h: Seq<char>, b: Seq<char>, fields: Seq<Seq<char>>)
    requires
        !(h.len() > 0 && h.last() == '\r'),
    ensures
        header_values(h + seq!['\n', '\n'] + b, fields) == header_values(h, fields),
{
    let e = Seq::<char>::empty();
    let nb = e.push('\n') + b;
    assert(h + seq!['\n', '\n'] + b =~= h.push('\n') + nb);
    lemma_text_lines_after_newline(h, nb);
    lemma_text_lines_after_newline(e, b);
    assert(text_lines(e.push('\n')) =~= seq![e]) by {
        let u = e.push('\n');
        assert(is_first_char(u, '\n', 0));
        lemma_find_char_some(u, '\n', 0);
        assert(u.take(0) =~= e);
        assert(u.skip(1) =~= e);
        lemma_find_char_facts(e, '\n');
        assert(text_lines(e) =~= Seq::<Seq<char>>::empty());
        assert(strip_cr(e) == e);
    }
    lemma_text_lines_push_newline(h);
    let th = text_lines(h);
    let tb = text_lines(b);
    if text_lines(h.push('\n')) == th {
        assert(text_lines(h + seq!['\n', '\n'] + b) =~= th + seq![e] + tb);
        lemma_scan_stops_at_empty(th, tb, fields, 0, false, e, Seq::empty());
    } else {
        assert(text_lines(h + seq!['\n', '\n'] + b) =~= th + seq![e] + (seq![e] + tb));
        lemma_scan_stops_at_empty(th, seq![e] + tb, fields, 0, false, e, Seq::empty());
    }
}


/// A line without a newline, alone or ended by one, is one text line.
proof fn lemma_one_line(x: Seq<char>)
    requires
        x.len() > 0,
        !contains_char(x, '\n'),
    ensures
        text_lines(x) == seq![x],
        x.last() != '\r' ==> text_lines(x.push('\n')) == seq![x],
{
    let e = Seq::<char>::empty();
    lemma_find_char_facts(x, '\n');
    lemma_find_char_facts(e, '\n');
    assert(text_lines(e) =~= Seq::<Seq<char>>::empty());
    let u = x.push('\n');
    let k = x.len() as int;
    assert(is_first_char(u, '\n', k)) by {
        assert forall|j: int| 0 <= j < k implies u[j] != '\n' by {
            assert(u[j] == x[j]);
            if x[j] == '\n' {
                assert(contains_char(x, '\n'));
            }
        }
    }
    lemma_find_char_some(u, '\n', k);
    assert(u.take(k) =~= x);
    assert(u.skip(k + 1) =~= e);
    assert(seq![strip_cr(x)] + Seq::<Seq<char>>::empty() =~= seq![strip_cr(x)]);
}

/// A header line folded with a space or with a tab continues the value of
/// the field line before it: the value is the text after the field name,
/// leading whitespace trimmed, followed by the whole folded line, its
/// leading space or tab included.
pub proof fn folded_line_continues_value(f: Seq<char>, v: Seq<char>, c: char, t: Seq<char>)
    requires
        c == ' ' || c == '\t',
        f.len() > 0,
        f[0] != ' ' && f[0] != '\t',
        !contains_char(f + v, '\n'),
        (f + v).last() != '\r',
        !contains_char(t, '\n'),
    ensures
        header_values(f + v + seq!['\n', c] + t, seq![f]) == seq![trim_start(v) + seq![c] + t],
{
    let fs = seq![f];
    let first = f + v;
    let second = seq![c] + t;
    assert(f + v + seq!['\n', c] + t =~= first.push('\n') + second);
    lemma_text_lines_after_newline(first, second);
    lemma_one_line(first);
    assert(!contains_char(second, '\n')) by {
        if contains_char(second, '\n') {
            let j = choose|j: int| 0 <= j < second.len() && second[j] == '\n';
            assert(t[j - 1] == second[j]);
        }
    }
    lemma_one_line(second);
    let lines = seq![first] + seq![second];
    assert(text_lines(f + v + seq!['\n', c] + t) =~= seq![first, second]);
    // The field line starts the value.
    assert(starts_with(first, f)) by {
        assert(first.subrange(0, f.len() as int) =~= f);
    }
    assert(is_first_prefix(first, fs, 0));
    assert(first_prefix(first, fs) == Some(0int)) by {
        let k = choose|k: int| #[trigger] is_first_prefix(first, fs, k);
        assert(is_first_prefix(first, fs, k));
    }
    assert(first.skip(f.len() as int) =~= v);
    // The folded line names no field.
    assert(!starts_with(second, f)) by {
        if starts_with(second, f) {
            assert(second.subrange(0, f.len() as int)[0] == f[0]);
        }
    }
    assert(first_prefix(second, fs) is None) by {
        if exists|k: int| #[trigger] is_first_prefix(second, fs, k) {
            let k = choose|k: int| #[trigger] is_first_prefix(second, fs, k);
            assert(k == 0);
        }
    }
    assert(is_continuation(second));
    let joined = trim_start(v) + second;
    assert(joined.len() > 0);
    let e = Seq::<Seq<char>>::empty();
    let ls = seq![first, second];
    assert(header_scan(ls, fs, 2, true, joined, e) == seq![joined]);
    assert(header_scan(ls, fs, 1, true, trim_start(v), e) == header_scan(ls, fs, 2, true, joined, e));
    assert(header_scan(ls, fs, 0, false, Seq::empty(), e) == header_scan(ls, fs, 1, true, trim_start(v), e));
    assert(joined =~= trim_start(v) + seq![c] + t);
}

} // verus!
