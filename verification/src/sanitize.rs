//! Normalisation of a single mailbox string: whitespace, stray single quotes,
//! and display names that merely repeat the address.
use vstd::prelude::*;
use crate::text::{chars_of, slice_chars, string_from_chars};

verus! {

/// The state carried while a mailbox is scanned: the output so far, whether
/// the scan is inside double quotes, and the output positions of the last
/// quoted display name and of the last unquoted `<...>` address.
pub struct SanitizeScan {
    pub out: Seq<char>,
    pub within_quotes: bool,
    pub quoted_start: int,
    pub quoted_end: int,
    pub email_start: int,
    pub email_end: int,
}

pub open spec fn initial_scan() -> SanitizeScan {
    SanitizeScan {
        out: Seq::empty(),
        within_quotes: false,
        quoted_start: 0,
        quoted_end: 0,
        email_start: 0,
        email_end: 0,
    }
}

/// The first position at or after `k` that does not hold a space.
pub open spec fn skip_spaces(s: Seq<char>, k: int) -> int
    decreases s.len() - k,
{
    if 0 <= k < s.len() && s[k] == ' ' {
        skip_spaces(s, k + 1)
    } else {
        k
    }
}

pub proof fn lemma_skip_spaces(s: Seq<char>, k: int)
    requires
        0 <= k <= s.len(),
    ensures
        k <= skip_spaces(s, k) <= s.len(),
    decreases s.len() - k,
{
    if 0 <= k < s.len() && s[k] == ' ' {
        lemma_skip_spaces(s, k + 1);
    }
}

/// A single quote at `i` is dropped when it opens the mailbox, touches a
/// double quote, or directly precedes ` <`.
pub open spec fn drops_single_quote(s: Seq<char>, i: int) -> bool {
    ||| i == 0
    ||| (i > 0 && s[i - 1] == '"')
    ||| (i + 1 < s.len() && s[i + 1] == '"')
    ||| (i + 2 < s.len() && s[i + 1] == ' ' && s[i + 2] == '<')
}

/// One step of the scan at position `i`: the next position and the new state.
pub open spec fn sanitize_step(s: Seq<char>, i: int, st: SanitizeScan) -> (int, SanitizeScan) {
    let c = s[i];
    let n = s.len();
    if c == '\\' {
        if i + 1 < n {
            (i + 2, SanitizeScan { out: st.out.push('\\').push(s[i + 1]), ..st })
        } else {
            (i + 1, SanitizeScan { out: st.out.push('\\'), ..st })
        }
    } else if c == ' ' {
        (skip_spaces(s, i + 1), SanitizeScan { out: st.out.push(' '), ..st })
    } else if c == '\t' {
        (i + 1, SanitizeScan { out: st.out.push(' '), ..st })
    } else if c == '"' {
        if st.within_quotes {
            (
                i + 1,
                SanitizeScan {
                    out: st.out.push('"'),
                    within_quotes: false,
                    quoted_end: st.out.len() as int,
                    ..st
                },
            )
        } else {
            (
                i + 1,
                SanitizeScan {
                    out: st.out.push('"'),
                    within_quotes: true,
                    quoted_start: st.out.len() + 1 as int,
                    ..st
                },
            )
        }
    } else if c == '\'' {
        if drops_single_quote(s, i) {
            (i + 1, st)
        } else {
            (i + 1, SanitizeScan { out: st.out.push('\''), ..st })
        }
    } else if c == '<' {
        (
            i + 1,
            SanitizeScan {
                out: st.out.push('<'),
                email_start: if st.within_quotes {
                    st.email_start
                } else {
                    st.out.len() as int
                },
                ..st
            },
        )
    } else if c == '>' {
        (
            i + 1,
            SanitizeScan {
                out: st.out.push('>'),
                email_end: if st.within_quotes {
                    st.email_end
                } else {
                    st.out.len() as int
                },
                ..st
            },
        )
    } else {
        (i + 1, SanitizeScan { out: st.out.push(c), ..st })
    }
}

pub proof fn lemma_step_advances(s: Seq<char>, i: int, st: SanitizeScan)
    requires
        0 <= i < s.len(),
    ensures
        i < sanitize_step(s, i, st).0 <= s.len(),
{
    if s[i] == ' ' {
        lemma_skip_spaces(s, i + 1);
    }
}

/// The state after scanning `s` from position `i` onwards.
pub open spec fn sanitize_scan(s: Seq<char>, i: int, st: SanitizeScan) -> SanitizeScan
    decreases s.len() - i,
{
    if 0 <= i < s.len() {
        proof {
            lemma_step_advances(s, i, st);
        }
        let (j, next) = sanitize_step(s, i, st);
        sanitize_scan(s, j, next)
    } else {
        st
    }
}

/// Whether the scan found both a quoted display name and an address after it.
pub open spec fn has_name_and_address(st: SanitizeScan) -> bool {
    &&& st.quoted_end > 0
    &&& st.email_end > 0
    &&& st.quoted_start <= st.quoted_end
    &&& st.email_start < st.email_end
}

/// The display name repeats the address, with or without its angle brackets.
pub open spec fn name_repeats_address(st: SanitizeScan) -> bool {
    let display = st.out.subrange(st.quoted_start, st.quoted_end);
    ||| display == st.out.subrange(st.email_start + 1, st.email_end)
    ||| display == st.out.subrange(st.email_start, st.email_end + 1)
}

/// The sanitized form of a mailbox: the scan's output, cut down to the address
/// part when the display name only repeats the address.
pub open spec fn sanitized(s: Seq<char>) -> Seq<char> {
    let st = sanitize_scan(s, 0, initial_scan());
    if has_name_and_address(st) && name_repeats_address(st) {
        st.out.skip(st.email_start)
    } else {
        st.out
    }
}

/// The positions a scan state records always lie inside its output.
pub open spec fn scan_positions_ok(st: SanitizeScan) -> bool {
    &&& 0 <= st.quoted_start <= st.out.len()
    &&& 0 <= st.quoted_end <= st.out.len()
    &&& 0 <= st.email_start <= st.out.len()
    &&& (st.email_end == 0 || st.email_end < st.out.len())
    &&& st.email_end >= 0
}

/// Whether `s[a1..b1]` equals `s[a2..b2]`.
fn ranges_equal(s: &Vec<char>, a1: usize, b1: usize, a2: usize, b2: usize) -> (r: bool)
    requires
        a1 <= b1 <= s.len(),
        a2 <= b2 <= s.len(),
    ensures
        r == (s@.subrange(a1 as int, b1 as int) == s@.subrange(a2 as int, b2 as int)),
{
    if b1 - a1 != b2 - a2 {
        assert(s@.subrange(a1 as int, b1 as int).len() != s@.subrange(a2 as int, b2 as int).len());
        return false;
    }
    let len = b1 - a1;
    let mut k: usize = 0;
    while k < len
        invariant
            len == b1 - a1,
            len == b2 - a2,
            a1 <= b1 <= s.len(),
            a2 <= b2 <= s.len(),
            k <= len,
            forall|j: int|
                0 <= j < k ==> #[trigger] s@.subrange(a1 as int, b1 as int)[j] == s@.subrange(
                    a2 as int,
                    b2 as int,
                )[j],
        decreases len - k,
    {
        if s[a1 + k] != s[a2 + k] {
            assert(s@.subrange(a1 as int, b1 as int)[k as int] != s@.subrange(
                a2 as int,
                b2 as int,
            )[k as int]);
            return false;
        }
        k = k + 1;
    }
    assert(s@.subrange(a1 as int, b1 as int) =~= s@.subrange(a2 as int, b2 as int));
    true
}

/// Sanitizes a mailbox string by normalizing whitespace, handling quotes, and
/// removing redundant display names.
///
/// Runs of spaces collapse to one space and tabs become spaces; a backslash
/// keeps the character after it as it is; single quotes are dropped where they
/// open the mailbox, touch a double quote or precede ` <`. When a quoted
/// display name only repeats the address, the result is the `<...>` part.
pub fn sanitize_mailbox(line: &str) -> (r: String)
    ensures
        r@ == sanitized(line@),
{
    let s = chars_of(line);
    let n = s.len();
    let ghost init = initial_scan();
    let mut out: Vec<char> = Vec::new();
    let mut within_quotes = false;
    let mut quoted_start: usize = 0;
    let mut quoted_end: usize = 0;
    let mut email_start: usize = 0;
    let mut email_end: usize = 0;
    let mut i: usize = 0;
    while i < n
        invariant
            n == s.len(),
            s@ == line@,
            i <= n,
            out.len() <= i,
            ({
                let st = SanitizeScan {
                    out: out@,
                    within_quotes,
                    quoted_start: quoted_start as int,
                    quoted_end: quoted_end as int,
                    email_start: email_start as int,
                    email_end: email_end as int,
                };
                &&& scan_positions_ok(st)
                &&& sanitize_scan(s@, i as int, st) == sanitize_scan(s@, 0, init)
            }),
        decreases n - i,
    {
        let ghost st = SanitizeScan {
            out: out@,
            within_quotes,
            quoted_start: quoted_start as int,
            quoted_end: quoted_end as int,
            email_start: email_start as int,
            email_end: email_end as int,
        };
        let ghost step = sanitize_step(s@, i as int, st);
        proof {
            lemma_step_advances(s@, i as int, st);
        }
        let c = s[i];
        if c == '\\' {
            out.push('\\');
            if i + 1 < n {
                out.push(s[i + 1]);
                i = i + 2;
            } else {
                i = i + 1;
            }
        } else if c == ' ' {
            out.push(' ');
            let mut k = i + 1;
            while k < n && s[k] == ' '
                invariant
                    n == s.len(),
                    i < k <= n,
                    skip_spaces(s@, k as int) == skip_spaces(s@, i + 1),
                decreases n - k,
            {
                k = k + 1;
            }
            i = k;
        } else if c == '\t' {
            out.push(' ');
            i = i + 1;
        } else if c == '"' {
            if within_quotes {
                quoted_end = out.len();
            } else {
                quoted_start = out.len() + 1;
            }
            within_quotes = !within_quotes;
            out.push('"');
            i = i + 1;
        } else if c == '\'' {
            let drop = i == 0 || (i > 0 && s[i - 1] == '"') || (i + 1 < n && s[i + 1] == '"') || (
            i + 1 < n && i + 2 < n && s[i + 1] == ' ' && s[i + 2] == '<');
            if !drop {
                out.push('\'');
            }
            i = i + 1;
        } else if c == '<' {
            if !within_quotes {
                email_start = out.len();
            }
            out.push('<');
            i = i + 1;
        } else if c == '>' {
            if !within_quotes {
                email_end = out.len();
            }
            out.push('>');
            i = i + 1;
        } else {
            out.push(c);
            i = i + 1;
        }
        proof {
            let st2 = SanitizeScan {
                out: out@,
                within_quotes,
                quoted_start: quoted_start as int,
                quoted_end: quoted_end as int,
                email_start: email_start as int,
                email_end: email_end as int,
            };
            assert(step.0 == i as int);
            assert(step.1 == st2);
        }
    }
    let ghost fin = SanitizeScan {
        out: out@,
        within_quotes,
        quoted_start: quoted_start as int,
        quoted_end: quoted_end as int,
        email_start: email_start as int,
        email_end: email_end as int,
    };
    assert(fin == sanitize_scan(s@, 0, init));
    if quoted_end > 0 && email_end > 0 && quoted_start <= quoted_end && email_start < email_end {
        let same_as_address = ranges_equal(&out, quoted_start, quoted_end, email_start + 1, email_end);
        let same_as_bracketed = ranges_equal(
            &out,
            quoted_start,
            quoted_end,
            email_start,
            email_end + 1,
        );
        if same_as_address || same_as_bracketed {
            let len = out.len();
            let tail = slice_chars(&out, email_start, len);
            return string_from_chars(tail);
        }
    }
    string_from_chars(out)
}

/// Every tab in `out` directly follows a backslash.
pub open spec fn tabs_escaped(out: Seq<char>) -> bool {
    forall|j: int| 0 <= j < out.len() && #[trigger] out[j] == '\t' ==> j > 0 && out[j - 1] == '\\'
}

/// What a scan state keeps true: tabs only after backslashes, and the
/// recorded address start at a `<`.
pub open spec fn scan_keeps_tabs_escaped(st: SanitizeScan) -> bool {
    &&& tabs_escaped(st.out)
    &&& (st.email_start == 0 || (0 <= st.email_start < st.out.len() && st.out[st.email_start] == '<'))
}

proof fn lemma_push_keeps(st: SanitizeScan, c: char)
    requires
        scan_keeps_tabs_escaped(st),
        c != '\t',
    ensures
        tabs_escaped(st.out.push(c)),
        st.email_start == 0 || (0 <= st.email_start < st.out.push(c).len() && st.out.push(c)[st.email_start] == '<'),
{
    let o = st.out.push(c);
    assert forall|j: int| 0 <= j < o.len() && #[trigger] o[j] == '\t' implies j > 0 && o[j - 1] == '\\' by {
        assert(j < st.out.len());
        assert(st.out[j] == '\t');
    }
}

proof fn lemma_scan_keeps_tabs_escaped(s: Seq<char>, i: int, st: SanitizeScan)
    requires
        scan_keeps_tabs_escaped(st),
    ensures
        scan_keeps_tabs_escaped(sanitize_scan(s, i, st)),
    decreases s.len() - i,
{
    if 0 <= i < s.len() {
        lemma_step_advances(s, i, st);
        let (j, next) = sanitize_step(s, i, st);
        let c = s[i];
        if c == '\\' {
            let o1 = st.out.push('\\');
            lemma_push_keeps(st, '\\');
            if i + 1 < s.len() {
                let o2 = o1.push(s[i + 1]);
                assert forall|k: int| 0 <= k < o2.len() && #[trigger] o2[k] == '\t' implies k > 0
                    && o2[k - 1] == '\\' by {
                    if k < o1.len() {
                        assert(o1[k] == '\t');
                    } else {
                        assert(o2[k - 1] == o1[o1.len() - 1]);
                    }
                }
            }
        } else if c == ' ' || c == '\t' {
            lemma_push_keeps(st, ' ');
        } else if c == '"' {
            lemma_push_keeps(st, '"');
        } else if c == '\'' {
            if !drops_single_quote(s, i) {
                lemma_push_keeps(st, '\'');
            }
        } else if c == '<' {
            lemma_push_keeps(st, '<');
        } else if c == '>' {
            lemma_push_keeps(st, '>');
        } else {
            lemma_push_keeps(st, c);
        }
        lemma_scan_keeps_tabs_escaped(s, j, next);
    }
}

/// Sanitizing turns every tab into a space, except a tab protected by a
/// backslash: in the result, each tab directly follows a backslash.
pub proof fn sanitized_tabs_are_escaped(s: Seq<char>)
    ensures
        tabs_escaped(sanitized(s)),
{
    let st = sanitize_scan(s, 0, initial_scan());
    assert(scan_keeps_tabs_escaped(initial_scan()));
    lemma_scan_keeps_tabs_escaped(s, 0, initial_scan());
    if has_name_and_address(st) && name_repeats_address(st) {
        let r = st.out.skip(st.email_start);
        assert forall|j: int| 0 <= j < r.len() && #[trigger] r[j] == '\t' implies j > 0 && r[j - 1]
            == '\\' by {
            assert(r[j] == st.out[st.email_start + j]);
            if j > 0 {
                assert(r[j - 1] == st.out[st.email_start + j - 1]);
            }
        }
    }
}

/// No two neighbouring spaces.
pub open spec fn no_double_space(out: Seq<char>) -> bool {
    forall|j: int| 0 <= j && j + 1 < out.len() ==> !(#[trigger] out[j] == ' ' && out[j + 1] == ' ')
}

/// A mailbox without tabs, backslashes or single quotes: the characters
/// whose handling can leave two spaces side by side.
pub open spec fn plain_mailbox(s: Seq<char>) -> bool {
    forall|j: int| 0 <= j < s.len() ==> #[trigger] s[j] != '\t' && s[j] != '\\' && s[j] != '\''
}

proof fn lemma_skip_spaces_stops(s: Seq<char>, k: int)
    requires
        0 <= k,
    ensures
        skip_spaces(s, k) >= s.len() || s[skip_spaces(s, k)] != ' ',
        skip_spaces(s, k) >= k,
    decreases s.len() - k,
{
    if 0 <= k < s.len() && s[k] == ' ' {
        lemma_skip_spaces_stops(s, k + 1);
    }
}

/// The scan state at `i` keeps spaces single, and a trailing space is not
/// followed by one in the input.
pub open spec fn spaces_single_at(s: Seq<char>, i: int, out: Seq<char>) -> bool {
    &&& no_double_space(out)
    &&& (out.len() > 0 && out.last() == ' ' && 0 <= i < s.len()) ==> s[i] != ' '
}

proof fn lemma_push_single(out: Seq<char>, c: char)
    requires
        no_double_space(out),
        c != ' ' || !(out.len() > 0 && out.last() == ' '),
    ensures
        no_double_space(out.push(c)),
{
    let o = out.push(c);
    assert forall|j: int| 0 <= j && j + 1 < o.len() implies !(#[trigger] o[j] == ' ' && o[j + 1] == ' ') by {
        if j + 1 < out.len() {
            assert(o[j] == out[j] && o[j + 1] == out[j + 1]);
        } else {
            assert(o[j + 1] == c);
            assert(o[j] == out.last());
        }
    }
}

proof fn lemma_scan_spaces_single(s: Seq<char>, i: int, st: SanitizeScan)
    requires
        plain_mailbox(s),
        0 <= i,
        spaces_single_at(s, i, st.out),
    ensures
        no_double_space(sanitize_scan(s, i, st).out),
    decreases s.len() - i,
{
    if 0 <= i < s.len() {
        lemma_step_advances(s, i, st);
        let (j, next) = sanitize_step(s, i, st);
        let c = s[i];
        assert(c != '\t' && c != '\\' && c != '\'');
        lemma_push_single(st.out, c);
        if c == ' ' {
            lemma_skip_spaces_stops(s, i + 1);
        }
        assert(next.out == st.out.push(c));
        assert(next.out.last() == c);
        lemma_scan_spaces_single(s, j, next);
    }
}

/// On a mailbox without tabs, backslashes and single quotes, sanitizing
/// leaves no two spaces side by side.
pub proof fn sanitized_spaces_are_single(s: Seq<char>)
    requires
        plain_mailbox(s),
    ensures
        no_double_space(sanitized(s)),
{
    let st = sanitize_scan(s, 0, initial_scan());
    lemma_scan_spaces_single(s, 0, initial_scan());
    assert(scan_keeps_tabs_escaped(initial_scan()));
    lemma_scan_keeps_tabs_escaped(s, 0, initial_scan());
    if has_name_and_address(st) && name_repeats_address(st) {
        let r = st.out.skip(st.email_start);
        assert forall|j: int| 0 <= j && j + 1 < r.len() implies !(#[trigger] r[j] == ' ' && r[j + 1]
            == ' ') by {
            assert(r[j] == st.out[st.email_start + j]);
            assert(r[j + 1] == st.out[st.email_start + j + 1]);
        }
    }
}


/// A character that the scan copies as it is: none of backslash, space,
/// tab, double quote, single quote, `<` and `>`.
pub open spec fn copied_as_is(c: char) -> bool {
    c != '\\' && c != ' ' && c != '\t' && c != '"' && c != '\'' && c != '<' && c != '>'
}

/// Text made only of characters the scan copies as they are.
pub open spec fn plain_text(x: Seq<char>) -> bool {
    forall|j: int| 0 <= j < x.len() ==> copied_as_is(#[trigger] x[j])
}

/// Scanning a run of characters copied as they are appends the run to the
/// output and changes nothing else.
proof fn lemma_scan_plain_run(s: Seq<char>, i: int, k: int, st: SanitizeScan)
    requires
        0 <= i <= k <= s.len(),
        forall|j: int| i <= j < k ==> copied_as_is(#[trigger] s[j]),
    ensures
        sanitize_scan(s, i, st) == sanitize_scan(
            s,
            k,
            SanitizeScan { out: st.out + s.subrange(i, k), ..st },
        ),
    decreases k - i,
{
    if i < k {
        let next = SanitizeScan { out: st.out.push(s[i]), ..st };
        assert(copied_as_is(s[i]));
        assert(sanitize_step(s, i, st) == (i + 1, next));
        lemma_scan_plain_run(s, i + 1, k, next);
        assert(next.out + s.subrange(i + 1, k) =~= st.out + s.subrange(i, k));
    } else {
        assert(st.out + s.subrange(i, k) =~= st.out);
        assert(SanitizeScan { out: st.out + s.subrange(i, k), ..st } == st);
    }
}

/// A quoted display name followed by an address in angle brackets, both
/// made of characters the scan copies as they are: the display name is
/// dropped exactly when it is the whole address. Any other name, one that
/// is only a part of the address among them, is kept.
pub proof fn quoted_name_dropped_only_when_it_is_the_address(name: Seq<char>, addr: Seq<char>)
    requires
        plain_text(name),
        plain_text(addr),
    ensures
        ({
            let m = seq!['"'] + name + seq!['"', ' ', '<'] + addr + seq!['>'];
            sanitized(m) == if name == addr {
                seq!['<'] + addr + seq!['>']
            } else {
                m
            }
        }),
{
    let m = seq!['"'] + name + seq!['"', ' ', '<'] + addr + seq!['>'];
    let nl = name.len() as int;
    let al = addr.len() as int;
    assert(m.len() == nl + al + 5);
    assert(m[0] == '"');
    assert(m[nl + 1] == '"');
    assert(m[nl + 2] == ' ');
    assert(m[nl + 3] == '<');
    assert(m[nl + al + 4] == '>');
    assert(m.subrange(1, nl + 1) =~= name);
    assert(m.subrange(nl + 4, nl + al + 4) =~= addr);
    assert forall|j: int| 1 <= j < nl + 1 implies copied_as_is(#[trigger] m[j]) by {
        assert(m[j] == name[j - 1]);
    }
    assert forall|j: int| nl + 4 <= j < nl + al + 4 implies copied_as_is(#[trigger] m[j]) by {
        assert(m[j] == addr[j - nl - 4]);
    }
    let st0 = initial_scan();
    let st1 = SanitizeScan { out: seq!['"'], within_quotes: true, quoted_start: 1, ..st0 };
    assert(sanitize_step(m, 0, st0) == (1int, st1));
    assert(sanitize_scan(m, 0, st0) == sanitize_scan(m, 1, st1));
    lemma_scan_plain_run(m, 1, nl + 1, st1);
    let st2 = SanitizeScan { out: seq!['"'] + name, ..st1 };
    assert(st1.out + m.subrange(1, nl + 1) =~= st2.out);
    let st3 = SanitizeScan {
        out: st2.out.push('"'),
        within_quotes: false,
        quoted_end: nl + 1,
        ..st2
    };
    assert(sanitize_step(m, nl + 1, st2) == (nl + 2, st3));
    assert(skip_spaces(m, nl + 3) == nl + 3);
    let st4 = SanitizeScan { out: st3.out.push(' '), ..st3 };
    assert(sanitize_step(m, nl + 2, st3) == (nl + 3, st4));
    let st5 = SanitizeScan { out: st4.out.push('<'), email_start: nl + 3, ..st4 };
    assert(sanitize_step(m, nl + 3, st4) == (nl + 4, st5));
    lemma_scan_plain_run(m, nl + 4, nl + al + 4, st5);
    let st6 = SanitizeScan { out: st5.out + addr, ..st5 };
    assert(st5.out + m.subrange(nl + 4, nl + al + 4) =~= st6.out);
    let st7 = SanitizeScan { out: st6.out.push('>'), email_end: nl + al + 4, ..st6 };
    assert(sanitize_step(m, nl + al + 4, st6) == (nl + al + 5, st7));
    assert(sanitize_scan(m, nl + al + 5, st7) == st7);
    assert(SanitizeScan { out: st1.out + m.subrange(1, nl + 1), ..st1 } == st2);
    assert(SanitizeScan { out: st5.out + m.subrange(nl + 4, nl + al + 4), ..st5 } == st6);
    assert(sanitize_scan(m, nl + 1, st2) == sanitize_scan(m, nl + 2, st3));
    assert(sanitize_scan(m, nl + 2, st3) == sanitize_scan(m, nl + 3, st4));
    assert(sanitize_scan(m, nl + 3, st4) == sanitize_scan(m, nl + 4, st5));
    assert(sanitize_scan(m, nl + al + 4, st6) == sanitize_scan(m, nl + al + 5, st7));
    let st = sanitize_scan(m, 0, st0);
    assert(st == st7);
    assert(st7.out =~= m);
    assert(has_name_and_address(st));
    let display = st.out.subrange(1, nl + 1);
    assert(display =~= name);
    assert(st.out.subrange(nl + 4, nl + al + 4) =~= addr);
    let bracketed = st.out.subrange(nl + 3, nl + al + 5);
    assert(bracketed =~= seq!['<'] + addr + seq!['>']);
    assert(name != bracketed) by {
        if name == bracketed {
            assert(name[0] == '<');
            assert(copied_as_is(name[0]));
        }
    }
    assert(m.skip(nl + 3) =~= bracketed);
}


/// A quoted display name that is the address with its angle brackets, in
/// front of that address, is dropped: only the `<...>` part is left.
pub proof fn bracketed_quoted_name_is_dropped(addr: Seq<char>)
    requires
        plain_text(addr),
    ensures
        sanitized(seq!['"', '<'] + addr + seq!['>', '"', ' ', '<'] + addr + seq!['>']) == seq!['<']
            + addr + seq!['>'],
{
    let m = seq!['"', '<'] + addr + seq!['>', '"', ' ', '<'] + addr + seq!['>'];
    let al = addr.len() as int;
    assert(m.len() == 2 * al + 7);
    assert(m[0] == '"');
    assert(m[1] == '<');
    assert(m[al + 2] == '>');
    assert(m[al + 3] == '"');
    assert(m[al + 4] == ' ');
    assert(m[al + 5] == '<');
    assert(m[2 * al + 6] == '>');
    assert(m.subrange(2, al + 2) =~= addr);
    assert(m.subrange(al + 6, 2 * al + 6) =~= addr);
    assert forall|j: int| 2 <= j < al + 2 implies copied_as_is(#[trigger] m[j]) by {
        assert(m[j] == addr[j - 2]);
    }
    assert forall|j: int| al + 6 <= j < 2 * al + 6 implies copied_as_is(#[trigger] m[j]) by {
        assert(m[j] == addr[j - al - 6]);
    }
    let st0 = initial_scan();
    let st1 = SanitizeScan { out: seq!['"'], within_quotes: true, quoted_start: 1, ..st0 };
    assert(sanitize_step(m, 0, st0) == (1int, st1));
    let st2 = SanitizeScan { out: seq!['"', '<'], ..st1 };
    assert(st1.out.push('<') =~= st2.out);
    assert(sanitize_step(m, 1, st1) == (2int, st2));
    lemma_scan_plain_run(m, 2, al + 2, st2);
    let st3 = SanitizeScan { out: seq!['"', '<'] + addr, ..st2 };
    assert(SanitizeScan { out: st2.out + m.subrange(2, al + 2), ..st2 } == st3);
    let st4 = SanitizeScan { out: st3.out.push('>'), ..st3 };
    assert(sanitize_step(m, al + 2, st3) == (al + 3, st4));
    let st5 = SanitizeScan {
        out: st4.out.push('"'),
        within_quotes: false,
        quoted_end: al + 3,
        ..st4
    };
    assert(sanitize_step(m, al + 3, st4) == (al + 4, st5));
    assert(skip_spaces(m, al + 5) == al + 5);
    let st6 = SanitizeScan { out: st5.out.push(' '), ..st5 };
    assert(sanitize_step(m, al + 4, st5) == (al + 5, st6));
    let st7 = SanitizeScan { out: st6.out.push('<'), email_start: al + 5, ..st6 };
    assert(sanitize_step(m, al + 5, st6) == (al + 6, st7));
    lemma_scan_plain_run(m, al + 6, 2 * al + 6, st7);
    let st8 = SanitizeScan { out: st7.out + addr, ..st7 };
    assert(SanitizeScan { out: st7.out + m.subrange(al + 6, 2 * al + 6), ..st7 } == st8);
    let st9 = SanitizeScan { out: st8.out.push('>'), email_end: 2 * al + 6, ..st8 };
    assert(sanitize_step(m, 2 * al + 6, st8) == (2 * al + 7, st9));
    assert(sanitize_scan(m, 0, st0) == sanitize_scan(m, 1, st1));
    assert(sanitize_scan(m, 1, st1) == sanitize_scan(m, 2, st2));
    assert(sanitize_scan(m, al + 2, st3) == sanitize_scan(m, al + 3, st4));
    assert(sanitize_scan(m, al + 3, st4) == sanitize_scan(m, al + 4, st5));
    assert(sanitize_scan(m, al + 4, st5) == sanitize_scan(m, al + 5, st6));
    assert(sanitize_scan(m, al + 5, st6) == sanitize_scan(m, al + 6, st7));
    assert(sanitize_scan(m, 2 * al + 6, st8) == sanitize_scan(m, 2 * al + 7, st9));
    assert(sanitize_scan(m, 2 * al + 7, st9) == st9);
    let st = sanitize_scan(m, 0, st0);
    assert(st == st9);
    assert(st9.out =~= m);
    assert(has_name_and_address(st));
    let b = seq!['<'] + addr + seq!['>'];
    assert(st.out.subrange(1, al + 3) =~= b);
    assert(st.out.subrange(al + 5, 2 * al + 7) =~= b);
    assert(m.skip(al + 5) =~= b);
}

} // verus!
