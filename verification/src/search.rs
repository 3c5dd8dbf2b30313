//! Matching address-book entries against a query. An entry is either a bare
//! mailbox or `ALIAS : MAILBOX`; the alias is the text before the first `:`,
//! the value the text from the second character after it.
use vstd::prelude::*;
use crate::text::{
    chars_of, contains_in, contains_seq, find_char, find_char_in, lowercase, lowercase_chars,
    slice_chars, string_from_chars,
};

verus! {

/// An ASCII character (one byte in UTF-8).
pub open spec fn is_ascii_char(c: char) -> bool {
    (c as u32) < 0x80
}

/// The value part of an entry is a valid slice: when the first `:` is not the
/// last character, the character after it is ASCII. On other entries the
/// byte offset two past the `:` would fall inside a character.
pub open spec fn value_slice_ok(l: Seq<char>) -> bool {
    match find_char(l, ':') {
        Some(k) => k + 1 < l.len() ==> is_ascii_char(l[k + 1]),
        None => true,
    }
}

/// The alias part matched by `check_alias` can be sliced: where the
/// lowercased alias contains the query, the character after `:` is ASCII.
pub open spec fn alias_slice_ok(q: Seq<char>, l: Seq<char>) -> bool {
    match find_char(l, ':') {
        Some(k) => (k + 1 < l.len() && contains_seq(lowercase(l.take(k)), q)) ==> is_ascii_char(
            l[k + 1],
        ),
        None => true,
    }
}

/// The value of a keyed entry when its lowercased alias contains `q`.
pub open spec fn alias_lookup(q: Seq<char>, l: Seq<char>) -> Option<Seq<char>> {
    match find_char(l, ':') {
        None => None,
        Some(k) => if k + 1 >= l.len() {
            None
        } else if contains_seq(lowercase(l.take(k)), q) {
            Some(l.skip(k + 2))
        } else {
            None
        },
    }
}

/// The part of an entry that value searches look at: everything from the
/// second character after the first `:`, or the whole entry when it has no
/// `:`; `None` when that part is empty.
pub open spec fn value_part(l: Seq<char>) -> Option<Seq<char>> {
    match find_char(l, ':') {
        None => if l.len() == 0 {
            None
        } else {
            Some(l)
        },
        Some(k) => if k + 2 >= l.len() {
            None
        } else {
            Some(l.skip(k + 2))
        },
    }
}

/// The value part of an entry when its lowercase form contains `q`.
pub open spec fn value_lookup(q: Seq<char>, l: Seq<char>) -> Option<Seq<char>> {
    match value_part(l) {
        Some(v) => if contains_seq(lowercase(v), q) {
            Some(v)
        } else {
            None
        },
        None => None,
    }
}

/// Checks if the query matches the alias (key) portion of a line.
/// Returns the value portion if matched.
pub fn check_alias(query_lower: &str, line: &str) -> (r: Option<String>)
    requires
        alias_slice_ok(query_lower@, line@),
    ensures
        r is Some <==> alias_lookup(query_lower@, line@) is Some,
        r matches Some(v) ==> v@ == alias_lookup(query_lower@, line@)->0,
{
    let l = chars_of(line);
    let n = l.len();
    match find_char_in(&l, ':') {
        None => None,
        Some(k) => {
            if k + 1 >= n {
                return None;
            }
            let alias = slice_chars(&l, 0, k);
            let lower = lowercase_chars(&alias);
            let q = chars_of(query_lower);
            if contains_in(&lower, &q) {
                let value = slice_chars(&l, k + 2, n);
                Some(string_from_chars(value))
            } else {
                None
            }
        },
    }
}

/// Checks if the query matches the value portion of a line.
/// Returns the value portion if matched.
pub fn check_value(query_lower: &str, line: &str) -> (r: Option<String>)
    requires
        value_slice_ok(line@),
    ensures
        r is Some <==> value_lookup(query_lower@, line@) is Some,
        r matches Some(v) ==> v@ == value_lookup(query_lower@, line@)->0,
{
    let l = chars_of(line);
    let n = l.len();
    let start = match find_char_in(&l, ':') {
        None => 0,
        Some(k) => {
            if n - k <= 2 {
                return None;
            }
            k + 2
        },
    };
    if start >= n {
        return None;
    }
    let value = slice_chars(&l, start, n);
    assert(value@ == value_part(line@)->0) by {
        assert(l@.subrange(0, n as int) =~= l@);
    }
    let lower = lowercase_chars(&value);
    let q = chars_of(query_lower);
    if contains_in(&lower, &q) {
        Some(string_from_chars(value))
    } else {
        None
    }
}

// ---------------------------------------------------------------------------
// Which entries a search returns
// ---------------------------------------------------------------------------

/// The part of an entry a search looks at.
#[derive(Clone, Copy, Debug)]
pub enum SearchField {
    /// The alias of keyed entries.
    Alias,
    /// The value part of every entry.
    Value,
    /// The value part of entries whose alias does not match.
    ValueOnly,
}

/// Whether entry `l` matches `q` in the given part.
pub open spec fn entry_matches(q: Seq<char>, l: Seq<char>, field: SearchField) -> bool {
    match field {
        SearchField::Alias => alias_lookup(q, l) is Some,
        SearchField::Value => value_lookup(q, l) is Some,
        SearchField::ValueOnly => alias_lookup(q, l) is None && value_lookup(q, l) is Some,
    }
}

/// The indices of the entries that match, in increasing order.
pub open spec fn hits(lines: Seq<Seq<char>>, q: Seq<char>, field: SearchField) -> Seq<usize>
    decreases lines.len(),
{
    if lines.len() == 0 {
        Seq::empty()
    } else {
        let before = hits(lines.drop_last(), q, field);
        if entry_matches(q, lines.last(), field) {
            before.push((lines.len() - 1) as usize)
        } else {
            before
        }
    }
}

/// The indices in `hits` are increasing, in range, and exactly those of the
/// matching entries.
pub proof fn lemma_hits(lines: Seq<Seq<char>>, q: Seq<char>, field: SearchField)
    requires
        lines.len() <= usize::MAX,
    ensures
        forall|a: int, b: int|
            0 <= a < b < hits(lines, q, field).len() ==> #[trigger] hits(lines, q, field)[a]
                < #[trigger] hits(lines, q, field)[b],
        forall|a: int|
            0 <= a < hits(lines, q, field).len() ==> #[trigger] hits(lines, q, field)[a]
                < lines.len(),
        forall|i: int|
            0 <= i < lines.len() ==> (entry_matches(q, #[trigger] lines[i], field) <==> hits(
                lines,
                q,
                field,
            ).contains(i as usize)),
    decreases lines.len(),
{
    if lines.len() > 0 {
        let prev = lines.drop_last();
        lemma_hits(prev, q, field);
        let h = hits(lines, q, field);
        let hp = hits(prev, q, field);
        assert forall|i: int| 0 <= i < lines.len() implies (entry_matches(q, #[trigger] lines[i], field)
            <==> h.contains(i as usize)) by {
            if i < prev.len() {
                assert(prev[i] == lines[i]);
                if h.contains(i as usize) && !hp.contains(i as usize) {
                    let w = choose|w: int| 0 <= w < h.len() && h[w] == i as usize;
                    assert(w == hp.len());
                }
                if hp.contains(i as usize) {
                    let w = choose|w: int| 0 <= w < hp.len() && hp[w] == i as usize;
                    assert(h[w] == i as usize);
                }
            } else {
                if h.contains(i as usize) && !entry_matches(q, lines[i], field) {
                    let w = choose|w: int| 0 <= w < h.len() && h[w] == i as usize;
                    assert(hp[w] < prev.len());
                }
                if entry_matches(q, lines[i], field) {
                    assert(h[hp.len() as int] == i as usize);
                }
            }
        }
    }
}

/// What an entry shows as its value: the text from the second character
/// after the first `:` when that `:` is not the last character, otherwise
/// the whole entry.
pub open spec fn shown_value(l: Seq<char>) -> Seq<char> {
    match find_char(l, ':') {
        Some(k) => if k + 1 < l.len() {
            l.skip(k + 2)
        } else {
            l
        },
        None => l,
    }
}

/// The value part of an entry, as it is printed for search results.
pub fn display_value(line: &str) -> (r: String)
    requires
        value_slice_ok(line@),
    ensures
        r@ == shown_value(line@),
{
    let l = chars_of(line);
    let n = l.len();
    match find_char_in(&l, ':') {
        Some(k) => {
            if k + 1 < n {
                let v = slice_chars(&l, k + 2, n);
                string_from_chars(v)
            } else {
                string_from_chars(l)
            }
        },
        None => string_from_chars(l),
    }
}

/// A search over aliases and then over values, as `search_all` combines
/// them, lists each index once, and lists exactly the entries that match in
/// their alias or their value.
pub proof fn search_all_lists_each_match_once(lines: Seq<Seq<char>>, q: Seq<char>)
    requires
        lines.len() <= usize::MAX,
    ensures
        ({
            let all = hits(lines, q, SearchField::Alias) + hits(lines, q, SearchField::ValueOnly);
            &&& forall|a: int, b: int| 0 <= a < b < all.len() ==> all[a] != all[b]
            &&& forall|i: int|
                0 <= i < lines.len() ==> (all.contains(i as usize) <==> (alias_lookup(
                    q,
                    #[trigger] lines[i],
                ) is Some || value_lookup(q, lines[i]) is Some))
        }),
{
    let ha = hits(lines, q, SearchField::Alias);
    let hv = hits(lines, q, SearchField::ValueOnly);
    let all = ha + hv;
    lemma_hits(lines, q, SearchField::Alias);
    lemma_hits(lines, q, SearchField::ValueOnly);
    assert forall|a: int, b: int| 0 <= a < b < all.len() implies all[a] != all[b] by {
        if b < ha.len() {
            assert(ha[a] < ha[b]);
        } else if a >= ha.len() {
            assert(hv[a - ha.len()] < hv[b - ha.len()]);
        } else {
            let i = ha[a] as int;
            assert(ha[a] < lines.len());
            assert(hv[b - ha.len()] < lines.len());
            assert(ha.contains(i as usize));
            if all[a] == all[b] {
                assert(hv.contains(i as usize));
                assert(entry_matches(q, lines[i], SearchField::Alias));
                assert(entry_matches(q, lines[i], SearchField::ValueOnly));
            }
        }
    }
    assert forall|i: int| 0 <= i < lines.len() implies (all.contains(i as usize) <==> (alias_lookup(
        q,
        #[trigger] lines[i],
    ) is Some || value_lookup(q, lines[i]) is Some)) by {
        if all.contains(i as usize) {
            let w = choose|w: int| 0 <= w < all.len() && all[w] == i as usize;
            if w < ha.len() {
                assert(ha.contains(i as usize));
            } else {
                assert(hv[w - ha.len()] == i as usize);
                assert(hv.contains(i as usize));
            }
        }
        if alias_lookup(q, lines[i]) is Some {
            assert(ha.contains(i as usize));
            let w = choose|w: int| 0 <= w < ha.len() && ha[w] == i as usize;
            assert(all[w] == i as usize);
        } else if value_lookup(q, lines[i]) is Some {
            assert(hv.contains(i as usize));
            let w = choose|w: int| 0 <= w < hv.len() && hv[w] == i as usize;
            assert(all[ha.len() + w] == i as usize);
        }
    }
}

/// The elements of `v` that `a` does not list, in `v`'s order.
pub open spec fn drop_listed(v: Seq<usize>, a: Seq<usize>) -> Seq<usize>
    decreases v.len(),
{
    if v.len() == 0 {
        v
    } else {
        let rest = drop_listed(v.drop_last(), a);
        if a.contains(v.last()) {
            rest
        } else {
            rest.push(v.last())
        }
    }
}

proof fn lemma_drop_listed_agree(v: Seq<usize>, a: Seq<usize>, b: Seq<usize>)
    requires
        forall|k: int| 0 <= k < v.len() ==> (a.contains(#[trigger] v[k]) <==> b.contains(v[k])),
    ensures
        drop_listed(v, a) == drop_listed(v, b),
    decreases v.len(),
{
    if v.len() > 0 {
        assert forall|k: int| 0 <= k < v.drop_last().len() implies (a.contains(
            #[trigger] v.drop_last()[k],
        ) <==> b.contains(v.drop_last()[k])) by {
            assert(v.drop_last()[k] == v[k]);
        }
        lemma_drop_listed_agree(v.drop_last(), a, b);
        assert(v.last() == v[v.len() - 1]);
    }
}

/// The value-only hits are the value hits that the alias hits do not list,
/// in order; so `search_all` gives the alias hits followed by the value
/// hits that are not alias hits.
pub proof fn value_only_hits_are_value_hits_outside_alias_hits(lines: Seq<Seq<char>>, q: Seq<char>)
    requires
        lines.len() <= usize::MAX,
    ensures
        hits(lines, q, SearchField::ValueOnly) == drop_listed(
            hits(lines, q, SearchField::Value),
            hits(lines, q, SearchField::Alias),
        ),
        hits(lines, q, SearchField::Alias) + hits(lines, q, SearchField::ValueOnly) == hits(
            lines,
            q,
            SearchField::Alias,
        ) + drop_listed(hits(lines, q, SearchField::Value), hits(lines, q, SearchField::Alias)),
    decreases lines.len(),
{
    if lines.len() > 0 {
        let p = lines.drop_last();
        let last = (lines.len() - 1) as usize;
        value_only_hits_are_value_hits_outside_alias_hits(p, q);
        lemma_hits(p, q, SearchField::Value);
        lemma_hits(lines, q, SearchField::Alias);
        let ha = hits(lines, q, SearchField::Alias);
        let hap = hits(p, q, SearchField::Alias);
        let hvp = hits(p, q, SearchField::Value);
        assert(lines[lines.len() - 1] == lines.last());
        assert forall|k: int| 0 <= k < hvp.len() implies (ha.contains(#[trigger] hvp[k])
            <==> hap.contains(hvp[k])) by {
            assert(hvp[k] < p.len());
            if ha.contains(hvp[k]) {
                let w = choose|w: int| 0 <= w < ha.len() && ha[w] == hvp[k];
                if w < hap.len() {
                    assert(ha[w] == hap[w]);
                } else {
                    assert(ha[w] == last);
                }
            }
            if hap.contains(hvp[k]) {
                let w = choose|w: int| 0 <= w < hap.len() && hap[w] == hvp[k];
                assert(ha[w] == hap[w]);
            }
        }
        lemma_drop_listed_agree(hvp, ha, hap);
        let hv = hits(lines, q, SearchField::Value);
        if entry_matches(q, lines.last(), SearchField::Value) {
            assert(hv.drop_last() == hvp);
            assert(hv.last() == last);
        } else {
            assert(hv == hvp);
        }
    }
}

/// Whether the value part of `line` can be sliced: `value_slice_ok`.
pub fn value_slice_is_ok(line: &str) -> (r: bool)
    ensures
        r == value_slice_ok(line@),
{
    let l = chars_of(line);
    let n = l.len();
    match find_char_in(&l, ':') {
        Some(k) => {
            if k < n - 1 {
                (l[k + 1] as u32) < 0x80
            } else {
                true
            }
        },
        None => true,
    }
}

/// Whether an alias lookup of `query_lower` in `line` can slice its value:
/// `alias_slice_ok`.
pub fn alias_slice_is_ok(query_lower: &str, line: &str) -> (r: bool)
    ensures
        r == alias_slice_ok(query_lower@, line@),
{
    let l = chars_of(line);
    match find_char_in(&l, ':') {
        Some(k) => {
            if k >= l.len() - 1 || (l[k + 1] as u32) < 0x80 {
                return true;
            }
            let alias = slice_chars(&l, 0, k);
            let lower = lowercase_chars(&alias);
            let q = chars_of(query_lower);
            !contains_in(&lower, &q)
        },
        None => true,
    }
}

} // verus!
