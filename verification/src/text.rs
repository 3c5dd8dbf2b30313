//! Character-sequence vocabulary shared by the rest of the library: searching,
//! prefixes, trimming, line splitting, and the few std string operations that
//! the library relies on.
use vstd::prelude::*;
use vstd::std_specs::iter::IteratorSpec;

verus! {

// ---------------------------------------------------------------------------
// Searching
// ---------------------------------------------------------------------------

/// `p` occurs in `s` starting at position `i`.
pub open spec fn occurs_at(s: Seq<char>, p: Seq<char>, i: int) -> bool {
    0 <= i && i + p.len() <= s.len() && s.subrange(i, i + p.len()) == p
}

/// `p` occurs somewhere in `s` (the meaning of `str::contains` on a pattern).
pub open spec fn contains_seq(s: Seq<char>, p: Seq<char>) -> bool {
    exists|i: int| #[trigger] occurs_at(s, p, i)
}

/// `i` is the leftmost position at which `p` occurs in `s`.
pub open spec fn is_first_occurrence(s: Seq<char>, p: Seq<char>, i: int) -> bool {
    &&& occurs_at(s, p, i)
    &&& forall|j: int| 0 <= j < i ==> !#[trigger] occurs_at(s, p, j)
}

/// The leftmost position of `p` in `s` (the meaning of `str::find` on a pattern).
pub open spec fn find_seq(s: Seq<char>, p: Seq<char>) -> Option<int> {
    if exists|i: int| #[trigger] is_first_occurrence(s, p, i) {
        Some(choose|i: int| #[trigger] is_first_occurrence(s, p, i))
    } else {
        None
    }
}

/// `s` begins with `p`.
pub open spec fn starts_with(s: Seq<char>, p: Seq<char>) -> bool {
    occurs_at(s, p, 0)
}

/// `c` occurs in `s`.
pub open spec fn contains_char(s: Seq<char>, c: char) -> bool {
    exists|i: int| 0 <= i < s.len() && s[i] == c
}

/// `i` is the leftmost position of the character `c` in `s`.
pub open spec fn is_first_char(s: Seq<char>, c: char, i: int) -> bool {
    &&& 0 <= i < s.len()
    &&& s[i] == c
    &&& forall|j: int| 0 <= j < i ==> s[j] != c
}

/// The leftmost position of `c` in `s`.
pub open spec fn find_char(s: Seq<char>, c: char) -> Option<int> {
    if exists|i: int| #[trigger] is_first_char(s, c, i) {
        Some(choose|i: int| #[trigger] is_first_char(s, c, i))
    } else {
        None
    }
}

pub proof fn lemma_find_seq_some(s: Seq<char>, p: Seq<char>, i: int)
    requires
        is_first_occurrence(s, p, i),
    ensures
        find_seq(s, p) == Some(i),
        contains_seq(s, p),
{
    let k = choose|k: int| #[trigger] is_first_occurrence(s, p, k);
    assert(is_first_occurrence(s, p, k));
    if k < i {
        assert(!occurs_at(s, p, k));
    }
    if i < k {
        assert(!occurs_at(s, p, i));
    }
}

pub proof fn lemma_find_seq_none(s: Seq<char>, p: Seq<char>)
    requires
        forall|j: int| !#[trigger] occurs_at(s, p, j),
    ensures
        find_seq(s, p) is None,
        !contains_seq(s, p),
{
    if exists|i: int| #[trigger] is_first_occurrence(s, p, i) {
        let k = choose|i: int| #[trigger] is_first_occurrence(s, p, i);
        assert(occurs_at(s, p, k));
    }
}

/// What `find_seq` returning a position tells about it.
pub proof fn lemma_find_seq_facts(s: Seq<char>, p: Seq<char>)
    ensures
        find_seq(s, p) matches Some(i) ==> is_first_occurrence(s, p, i),
        find_seq(s, p) is None ==> !contains_seq(s, p),
{
    if find_seq(s, p) is None {
        if contains_seq(s, p) {
            let w = choose|w: int| #[trigger] occurs_at(s, p, w);
            lemma_first_occurrence_exists(s, p, w);
        }
    }
}

/// An occurrence at `w` implies a leftmost occurrence.
pub proof fn lemma_first_occurrence_exists(s: Seq<char>, p: Seq<char>, w: int)
    requires
        occurs_at(s, p, w),
    ensures
        exists|i: int| #[trigger] is_first_occurrence(s, p, i),
    decreases w,
{
    if forall|j: int| 0 <= j < w ==> !#[trigger] occurs_at(s, p, j) {
        assert(is_first_occurrence(s, p, w));
    } else {
        let j = choose|j: int| 0 <= j < w && #[trigger] occurs_at(s, p, j);
        lemma_first_occurrence_exists(s, p, j);
    }
}

pub proof fn lemma_find_char_some(s: Seq<char>, c: char, i: int)
    requires
        is_first_char(s, c, i),
    ensures
        find_char(s, c) == Some(i),
{
    let k = choose|k: int| #[trigger] is_first_char(s, c, k);
    assert(is_first_char(s, c, k));
}

pub proof fn lemma_find_char_none(s: Seq<char>, c: char)
    requires
        !contains_char(s, c),
    ensures
        find_char(s, c) is None,
{
    if exists|i: int| #[trigger] is_first_char(s, c, i) {
        let k = choose|i: int| #[trigger] is_first_char(s, c, i);
        assert(is_first_char(s, c, k));
    }
}

pub proof fn lemma_find_char_facts(s: Seq<char>, c: char)
    ensures
        find_char(s, c) matches Some(i) ==> is_first_char(s, c, i),
        find_char(s, c) is None <==> !contains_char(s, c),
{
    if contains_char(s, c) {
        let w = choose|w: int| 0 <= w < s.len() && s[w] == c;
        lemma_first_char_exists(s, c, w);
    }
}

pub proof fn lemma_first_char_exists(s: Seq<char>, c: char, w: int)
    requires
        0 <= w < s.len(),
        s[w] == c,
    ensures
        exists|i: int| #[trigger] is_first_char(s, c, i),
    decreases w,
{
    if forall|j: int| 0 <= j < w ==> s[j] != c {
        assert(is_first_char(s, c, w));
    } else {
        let j = choose|j: int| 0 <= j < w && s[j] == c;
        lemma_first_char_exists(s, c, j);
    }
}

/// Whether `p` occurs in `s` at position `i`.
pub fn matches_at(s: &Vec<char>, p: &Vec<char>, i: usize) -> (r: bool)
    ensures
        r == occurs_at(s@, p@, i as int),
{
    if i > s.len() || p.len() > s.len() - i {
        return false;
    }
    let mut k: usize = 0;
    while k < p.len()
        invariant
            i + p.len() <= s.len(),
            k <= p.len(),
            forall|j: int| 0 <= j < k ==> s@[i + j] == p@[j],
        decreases p.len() - k,
    {
        if s[i + k] != p[k] {
            assert(s@.subrange(i as int, i + p.len())[k as int] != p@[k as int]);
            return false;
        }
        k = k + 1;
    }
    assert(s@.subrange(i as int, i + p.len()) =~= p@);
    true
}

/// The leftmost position of `p` in `s`.
pub fn find_seq_in(s: &Vec<char>, p: &Vec<char>) -> (r: Option<usize>)
    ensures
        r matches Some(i) ==> find_seq(s@, p@) == Some(i as int) && is_first_occurrence(
            s@,
            p@,
            i as int,
        ),
        r is None ==> find_seq(s@, p@) is None && !contains_seq(s@, p@),
{
    if p.len() > s.len() {
        assert forall|j: int| !#[trigger] occurs_at(s@, p@, j) by {}
        proof {
            lemma_find_seq_none(s@, p@);
        }
        return None;
    }
    if p.len() == 0 {
        assert(s@.subrange(0, 0) =~= p@);
        proof {
            lemma_find_seq_some(s@, p@, 0);
        }
        return Some(0);
    }
    let last = s.len() - p.len();
    let mut i: usize = 0;
    while i <= last
        invariant
            last == s.len() - p.len(),
            p.len() >= 1,
            i <= last + 1,
            forall|j: int| 0 <= j < i ==> !#[trigger] occurs_at(s@, p@, j),
        decreases last + 1 - i,
    {
        if matches_at(s, p, i) {
            proof {
                lemma_find_seq_some(s@, p@, i as int);
            }
            return Some(i);
        }
        i = i + 1;
    }
    assert forall|j: int| !#[trigger] occurs_at(s@, p@, j) by {
        if 0 <= j < i {
        }
    }
    proof {
        lemma_find_seq_none(s@, p@);
    }
    None
}

/// Whether `p` occurs in `s`.
pub fn contains_in(s: &Vec<char>, p: &Vec<char>) -> (r: bool)
    ensures
        r == contains_seq(s@, p@),
{
    match find_seq_in(s, p) {
        Some(i) => true,
        None => false,
    }
}

/// The leftmost position of `c` in `s`.
pub fn find_char_in(s: &Vec<char>, c: char) -> (r: Option<usize>)
    ensures
        r matches Some(i) ==> find_char(s@, c) == Some(i as int) && is_first_char(s@, c, i as int),
        r is None ==> find_char(s@, c) is None && !contains_char(s@, c),
{
    let mut i: usize = 0;
    while i < s.len()
        invariant
            i <= s.len(),
            forall|j: int| 0 <= j < i ==> s@[j] != c,
        decreases s.len() - i,
    {
        if s[i] == c {
            proof {
                lemma_find_char_some(s@, c, i as int);
            }
            return Some(i);
        }
        i = i + 1;
    }
    proof {
        lemma_find_char_none(s@, c);
    }
    None
}

/// Whether `c` occurs in `s`.
pub fn contains_char_in(s: &Vec<char>, c: char) -> (r: bool)
    ensures
        r == contains_char(s@, c),
{
    match find_char_in(s, c) {
        Some(_) => true,
        None => false,
    }
}

/// The characters `s[from..to]` as a new vector.
pub fn slice_chars(s: &Vec<char>, from: usize, to: usize) -> (r: Vec<char>)
    requires
        from <= to <= s.len(),
    ensures
        r@ == s@.subrange(from as int, to as int),
{
    let mut r: Vec<char> = Vec::new();
    let mut i = from;
    while i < to
        invariant
            from <= i <= to <= s.len(),
            r@ == s@.subrange(from as int, i as int),
        decreases to - i,
    {
        r.push(s[i]);
        i = i + 1;
    }
    r
}

/// Appends the characters of `t` to `r`.
pub fn append_chars(r: &mut Vec<char>, t: &Vec<char>)
    ensures
        final(r)@ == old(r)@ + t@,
{
    let mut i: usize = 0;
    while i < t.len()
        invariant
            i <= t.len(),
            r@ == old(r)@ + t@.subrange(0, i as int),
        decreases t.len() - i,
    {
        r.push(t[i]);
        i = i + 1;
    }
}

// ---------------------------------------------------------------------------
// Conversions between strings and character vectors
// ---------------------------------------------------------------------------

/// Collects the characters of `s` into a vector.
pub fn chars_of(s: &str) -> (v: Vec<char>)
    ensures
        v@ == s@,
{
    let mut it = s.chars();
    let mut v: Vec<char> = Vec::new();
    loop
        invariant
            v@ + it.remaining() == s@,
            it.decrease() is Some,
        ensures
            v@ == s@,
        decreases it.decrease()->0,
    {
        match it.next() {
            Some(c) => {
                v.push(c);
            },
            None => {
                break;
            },
        }
    }
    v
}

/// `String::from_iter` over characters. Trusted: the string holds exactly
/// the given characters, in order.
#[verifier::external_body]
pub(crate) fn string_from_chars(chars: Vec<char>) -> (s: String)
    ensures
        s@ == chars@,
{
    String::from_iter(chars)
}

// ---------------------------------------------------------------------------
// Case and whitespace, as std defines them
// ---------------------------------------------------------------------------

/// The lowercase mapping of a string, as `str::to_lowercase` computes it
/// (Unicode's `Lowercase` mapping, with the final-sigma rule).
pub uninterp spec fn lowercase(s: Seq<char>) -> Seq<char>;

/// `str::to_lowercase`. Trusted: its result is `lowercase` of its argument,
/// a function of the argument alone; what that mapping is on given characters
/// is not stated.
#[verifier::external_body]
pub(crate) fn to_lowercase(s: &str) -> (r: String)
    ensures
        r@ == lowercase(s@),
{
    s.to_lowercase()
}

/// The characters of `lowercase(s)`.
pub fn lowercase_chars(s: &Vec<char>) -> (r: Vec<char>)
    ensures
        r@ == lowercase(s@),
{
    let owned = string_from_chars(s.clone());
    let lower = to_lowercase(owned.as_str());
    chars_of(lower.as_str())
}

/// Whether `c` has Unicode's `White_Space` property (PropList.txt): the
/// controls U+0009 to U+000D, space, U+0085, no-break space, U+1680, the
/// spaces U+2000 to U+200A, the line and paragraph separators, U+202F,
/// U+205F and U+3000.
pub open spec fn white_space(c: char) -> bool {
    let u = c as u32;
    ||| 0x09 <= u <= 0x0d
    ||| u == 0x20 || u == 0x85 || u == 0xa0 || u == 0x1680
    ||| 0x2000 <= u <= 0x200a
    ||| u == 0x2028 || u == 0x2029 || u == 0x202f || u == 0x205f || u == 0x3000
}

/// `char::is_whitespace`. Trusted: it reports the `White_Space` property,
/// as `white_space` lists it.
pub assume_specification[ char::is_whitespace ](c: char) -> (r: bool)
    ensures
        r == white_space(c),
;

/// `i` is the first position of `s` that does not hold whitespace.
pub open spec fn is_first_non_ws(s: Seq<char>, i: int) -> bool {
    &&& 0 <= i < s.len()
    &&& !white_space(s[i])
    &&& forall|j: int| 0 <= j < i ==> white_space(#[trigger] s[j])
}

/// `i` is the last position of `s` that does not hold whitespace.
pub open spec fn is_last_non_ws(s: Seq<char>, i: int) -> bool {
    &&& 0 <= i < s.len()
    &&& !white_space(s[i])
    &&& forall|j: int| i < j < s.len() ==> white_space(#[trigger] s[j])
}

/// `s` without its leading whitespace (`str::trim_start`).
pub open spec fn trim_start(s: Seq<char>) -> Seq<char> {
    if exists|i: int| #[trigger] is_first_non_ws(s, i) {
        s.skip(choose|i: int| #[trigger] is_first_non_ws(s, i))
    } else {
        Seq::empty()
    }
}

/// `s` without its trailing whitespace (`str::trim_end`).
pub open spec fn trim_end(s: Seq<char>) -> Seq<char> {
    if exists|i: int| #[trigger] is_last_non_ws(s, i) {
        s.take((choose|i: int| #[trigger] is_last_non_ws(s, i)) + 1)
    } else {
        Seq::empty()
    }
}

/// `s` without leading and trailing whitespace (`str::trim`).
pub open spec fn trim(s: Seq<char>) -> Seq<char> {
    trim_end(trim_start(s))
}

/// The characters of `trim_start(s)`.
pub fn trim_start_chars(s: &Vec<char>) -> (r: Vec<char>)
    ensures
        r@ == trim_start(s@),
{
    let mut i: usize = 0;
    while i < s.len()
        invariant
            i <= s.len(),
            forall|j: int| 0 <= j < i ==> white_space(#[trigger] s@[j]),
        decreases s.len() - i,
    {
        if !s[i].is_whitespace() {
            assert(is_first_non_ws(s@, i as int));
            let ghost k = choose|k: int| #[trigger] is_first_non_ws(s@, k);
            assert(k == i) by {
                if k < i {
                    assert(white_space(s@[k]));
                }
                if i < k {
                    assert(white_space(s@[i as int]));
                }
            }
            return slice_chars(s, i, s.len());
        }
        i = i + 1;
    }
    assert(!exists|k: int| #[trigger] is_first_non_ws(s@, k)) by {
        if exists|k: int| #[trigger] is_first_non_ws(s@, k) {
            let k = choose|k: int| #[trigger] is_first_non_ws(s@, k);
            assert(white_space(s@[k]));
        }
    }
    Vec::new()
}

/// The characters of `trim_end(s)`.
pub fn trim_end_chars(s: &Vec<char>) -> (r: Vec<char>)
    ensures
        r@ == trim_end(s@),
{
    let mut i: usize = s.len();
    while i > 0
        invariant
            i <= s.len(),
            forall|j: int| i <= j < s.len() ==> white_space(#[trigger] s@[j]),
        decreases i,
    {
        if !s[i - 1].is_whitespace() {
            let ghost last = i - 1;
            assert(is_last_non_ws(s@, last));
            let ghost k = choose|k: int| #[trigger] is_last_non_ws(s@, k);
            assert(k == last) by {
                if k < last {
                    assert(white_space(s@[last]));
                }
                if last < k {
                    assert(white_space(s@[k]));
                }
            }
            return slice_chars(s, 0, i);
        }
        i = i - 1;
    }
    assert(!exists|k: int| #[trigger] is_last_non_ws(s@, k)) by {
        if exists|k: int| #[trigger] is_last_non_ws(s@, k) {
            let k = choose|k: int| #[trigger] is_last_non_ws(s@, k);
            assert(white_space(s@[k]));
        }
    }
    Vec::new()
}

/// The characters of `trim(s)`.
pub fn trim_chars(s: &Vec<char>) -> (r: Vec<char>)
    ensures
        r@ == trim(s@),
{
    let t = trim_start_chars(s);
    trim_end_chars(&t)
}

// ---------------------------------------------------------------------------
// Lines
// ---------------------------------------------------------------------------

/// `l` without one trailing carriage return.
pub open spec fn strip_cr(l: Seq<char>) -> Seq<char> {
    if l.len() > 0 && l.last() == '\r' {
        l.drop_last()
    } else {
        l
    }
}

/// The lines of `s` as `str::lines` yields them: split at each `\n`, a `\r`
/// before the `\n` dropped, and no empty line after a final `\n`.
pub open spec fn text_lines(s: Seq<char>) -> Seq<Seq<char>>
    decreases s.len(),
{
    match find_char(s, '\n') {
        Some(k) => {
            proof {
                lemma_find_char_facts(s, '\n');
            }
            seq![strip_cr(s.take(k))] + text_lines(s.skip(k + 1))
        },
        None => if s.len() == 0 {
            Seq::empty()
        } else {
            seq![s]
        },
    }
}

/// The views of a sequence of character vectors.
pub open spec fn char_views(v: Seq<Vec<char>>) -> Seq<Seq<char>> {
    v.map_values(|x: Vec<char>| x@)
}

/// The characters of `strip_cr(l)`.
fn strip_cr_chars(l: Vec<char>) -> (r: Vec<char>)
    ensures
        r@ == strip_cr(l@),
{
    let mut l = l;
    if l.len() > 0 && l[l.len() - 1] == '\r' {
        l.pop();
    }
    l
}

/// The lines of `s`, as `text_lines` describes them.
pub fn lines_of(s: &Vec<char>) -> (r: Vec<Vec<char>>)
    ensures
        char_views(r@) == text_lines(s@),
{
    let n = s.len();
    let mut out: Vec<Vec<char>> = Vec::new();
    let mut start: usize = 0;
    let mut i: usize = 0;
    assert(char_views(out@) =~= Seq::<Seq<char>>::empty());
    assert(s@.skip(0) =~= s@);
    while i < n
        invariant
            n == s.len(),
            start <= i <= n,
            forall|j: int| start <= j < i ==> s@[j] != '\n',
            char_views(out@) + text_lines(s@.skip(start as int)) == text_lines(s@),
        decreases n - i,
    {
        if s[i] == '\n' {
            let ghost rest = s@.skip(start as int);
            assert(is_first_char(rest, '\n', i - start)) by {
                assert forall|j: int| 0 <= j < i - start implies rest[j] != '\n' by {
                    assert(rest[j] == s@[start + j]);
                }
            }
            proof {
                lemma_find_char_some(rest, '\n', i - start);
            }
            assert(rest.take(i - start) =~= s@.subrange(start as int, i as int));
            assert(rest.skip(i - start + 1) =~= s@.skip(i + 1));
            let piece = slice_chars(s, start, i);
            let line = strip_cr_chars(piece);
            let ghost before = char_views(out@);
            out.push(line);
            assert(char_views(out@) =~= before.push(line@));
            assert(before.push(line@) + text_lines(s@.skip(i + 1)) =~= before + text_lines(rest));
            start = i + 1;
        }
        i = i + 1;
    }
    let ghost rest = s@.skip(start as int);
    assert(!contains_char(rest, '\n')) by {
        if contains_char(rest, '\n') {
            let j = choose|j: int| 0 <= j < rest.len() && rest[j] == '\n';
            assert(rest[j] == s@[start + j]);
        }
    }
    proof {
        lemma_find_char_facts(rest, '\n');
    }
    if start < n {
        let piece = slice_chars(s, start, n);
        let ghost before = char_views(out@);
        assert(piece@ =~= rest);
        out.push(piece);
        assert(char_views(out@) =~= before.push(rest));
        assert(before.push(rest) =~= before + seq![rest]);
    } else {
        assert(rest.len() == 0);
        assert(char_views(out@) + Seq::<Seq<char>>::empty() =~= char_views(out@));
    }
    out
}

/// Lines of text ending in a newline, followed by more text: the lines of
/// the first part and then those of the rest.
pub proof fn lemma_text_lines_after_newline(x: Seq<char>, y: Seq<char>)
    ensures
        text_lines(x.push('\n') + y) == text_lines(x.push('\n')) + text_lines(y),
    decreases x.len(),
{
    let t = x.push('\n') + y;
    let u = x.push('\n');
    lemma_find_char_facts(x, '\n');
    match find_char(x, '\n') {
        Some(k) => {
            assert(is_first_char(t, '\n', k)) by {
                assert forall|j: int| 0 <= j < k implies t[j] != '\n' by {
                    assert(t[j] == x[j]);
                }
            }
            assert(is_first_char(u, '\n', k)) by {
                assert forall|j: int| 0 <= j < k implies u[j] != '\n' by {
                    assert(u[j] == x[j]);
                }
            }
            lemma_find_char_some(t, '\n', k);
            lemma_find_char_some(u, '\n', k);
            let x2 = x.skip(k + 1);
            assert(t.take(k) =~= x.take(k));
            assert(u.take(k) =~= x.take(k));
            assert(t.skip(k + 1) =~= x2.push('\n') + y);
            assert(u.skip(k + 1) =~= x2.push('\n'));
            lemma_text_lines_after_newline(x2, y);
            assert(seq![strip_cr(x.take(k))] + (text_lines(x2.push('\n')) + text_lines(y)) =~= (seq![
                strip_cr(x.take(k)),
            ] + text_lines(x2.push('\n'))) + text_lines(y));
        },
        None => {
            let k = x.len() as int;
            assert(is_first_char(t, '\n', k)) by {
                assert forall|j: int| 0 <= j < k implies t[j] != '\n' by {
                    assert(t[j] == x[j]);
                    if x[j] == '\n' {
                        assert(contains_char(x, '\n'));
                    }
                }
            }
            assert(is_first_char(u, '\n', k)) by {
                assert forall|j: int| 0 <= j < k implies u[j] != '\n' by {
                    assert(u[j] == x[j]);
                    if x[j] == '\n' {
                        assert(contains_char(x, '\n'));
                    }
                }
            }
            lemma_find_char_some(t, '\n', k);
            lemma_find_char_some(u, '\n', k);
            assert(t.take(k) =~= x);
            assert(u.take(k) =~= x);
            assert(t.skip(k + 1) =~= y);
            assert(u.skip(k + 1) =~= Seq::<char>::empty());
            lemma_find_char_facts(Seq::<char>::empty(), '\n');
            assert(text_lines(Seq::<char>::empty()) =~= Seq::<Seq<char>>::empty());
            assert(seq![strip_cr(x)] + Seq::<Seq<char>>::empty() =~= seq![strip_cr(x)]);
        },
    }
}

/// A newline added to text that does not end in a carriage return adds at
/// most an empty line.
pub proof fn lemma_text_lines_push_newline(h: Seq<char>)
    requires
        !(h.len() > 0 && h.last() == '\r'),
    ensures
        text_lines(h.push('\n')) == text_lines(h) || text_lines(h.push('\n')) == text_lines(h).push(
            Seq::empty(),
        ),
    decreases h.len(),
{
    let u = h.push('\n');
    lemma_find_char_facts(h, '\n');
    match find_char(h, '\n') {
        Some(k) => {
            assert(is_first_char(u, '\n', k)) by {
                assert forall|j: int| 0 <= j < k implies u[j] != '\n' by {
                    assert(u[j] == h[j]);
                }
            }
            lemma_find_char_some(u, '\n', k);
            let h2 = h.skip(k + 1);
            assert(u.take(k) =~= h.take(k));
            assert(u.skip(k + 1) =~= h2.push('\n'));
            if h2.len() > 0 {
                assert(h2.last() == h.last());
            }
            lemma_text_lines_push_newline(h2);
            let first = seq![strip_cr(h.take(k))];
            assert(first + text_lines(h2).push(Seq::empty()) =~= (first + text_lines(h2)).push(
                Seq::empty(),
            ));
        },
        None => {
            let k = h.len() as int;
            assert(is_first_char(u, '\n', k)) by {
                assert forall|j: int| 0 <= j < k implies u[j] != '\n' by {
                    assert(u[j] == h[j]);
                    if h[j] == '\n' {
                        assert(contains_char(h, '\n'));
                    }
                }
            }
            lemma_find_char_some(u, '\n', k);
            assert(u.take(k) =~= h);
            assert(u.skip(k + 1) =~= Seq::<char>::empty());
            lemma_find_char_facts(Seq::<char>::empty(), '\n');
            assert(text_lines(Seq::<char>::empty()) =~= Seq::<Seq<char>>::empty());
            assert(strip_cr(h) == h);
            if h.len() == 0 {
                assert(text_lines(h) =~= Seq::<Seq<char>>::empty());
                assert(h =~= Seq::<char>::empty());
                assert(seq![h] + Seq::<Seq<char>>::empty() =~= Seq::<Seq<char>>::empty().push(
                    Seq::<char>::empty(),
                ));
            } else {
                assert(seq![h] + Seq::<Seq<char>>::empty() =~= seq![h]);
            }
        },
    }
}

} // verus!
