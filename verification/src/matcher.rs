//! Decides whether a line contains the query and returns the byte offsets of
//! the first occurrence, case-sensitively or after case folding.

use vstd::prelude::*;

verus! {

use vstd::utf8::encode_utf8;

/// `needle` occurs in `hay` starting at byte index `i`.
pub open spec fn occurs_at(hay: Seq<u8>, needle: Seq<u8>, i: int) -> bool {
    0 <= i && i + needle.len() <= hay.len() && hay.subrange(i, i + needle.len()) == needle
}

/// `needle` occurs somewhere in `hay`.
pub open spec fn contains_needle(hay: Seq<u8>, needle: Seq<u8>) -> bool {
    exists|i: int| occurs_at(hay, needle, i)
}

/// `i` is the position of the first occurrence of `needle` in `hay`.
pub open spec fn is_first_occurrence(hay: Seq<u8>, needle: Seq<u8>, i: int) -> bool {
    occurs_at(hay, needle, i) && (forall|j: int| 0 <= j < i ==> !occurs_at(hay, needle, j))
}

/// The position of the first occurrence of `needle` in `hay` at or after
/// index `i`.
pub open spec fn first_occurrence_from(hay: Seq<u8>, needle: Seq<u8>, i: int) -> Option<int>
    decreases hay.len() + 1 - i,
{
    if i < 0 || i + needle.len() > hay.len() {
        None
    } else if occurs_at(hay, needle, i) {
        Some(i)
    } else {
        first_occurrence_from(hay, needle, i + 1)
    }
}

/// The position of the first occurrence of `needle` in `hay`, or `None` when
/// `hay` does not contain `needle`.
pub open spec fn first_occurrence(hay: Seq<u8>, needle: Seq<u8>) -> Option<int> {
    first_occurrence_from(hay, needle, 0)
}

proof fn lemma_first_occurrence_from(hay: Seq<u8>, needle: Seq<u8>, i: int)
    requires
        0 <= i,
    ensures
        match first_occurrence_from(hay, needle, i) {
            Some(k) => i <= k && occurs_at(hay, needle, k) && (forall|j: int|
                i <= j < k ==> !occurs_at(hay, needle, j)),
            None => forall|j: int| i <= j ==> !occurs_at(hay, needle, j),
        },
    decreases hay.len() + 1 - i,
{
    if i + needle.len() > hay.len() {
    } else if occurs_at(hay, needle, i) {
    } else {
        lemma_first_occurrence_from(hay, needle, i + 1);
    }
}

/// `first_occurrence` returns the least position at which `needle` occurs,
/// and `None` exactly when there is no occurrence.
pub proof fn lemma_first_occurrence(hay: Seq<u8>, needle: Seq<u8>)
    ensures
        match first_occurrence(hay, needle) {
            Some(k) => is_first_occurrence(hay, needle, k),
            None => !contains_needle(hay, needle),
        },
{
    lemma_first_occurrence_from(hay, needle, 0);
}

fn match_at(hay: &[u8], needle: &[u8], i: usize) -> (r: bool)
    requires
        i + needle@.len() <= hay@.len(),
    ensures
        r == occurs_at(hay@, needle@, i as int),
{
    let hay_len: usize = hay.len();
    let mut j: usize = 0;
    while j < needle.len()
        invariant
            i + needle@.len() <= hay@.len(),
            hay@.len() == hay_len,
            j <= needle@.len(),
            forall|k: int| 0 <= k < j ==> hay@[i + k] == needle@[k],
        decreases needle@.len() - j,
    {
        if hay[i + j] != needle[j] {
            assert(!occurs_at(hay@, needle@, i as int)) by {
                if occurs_at(hay@, needle@, i as int) {
                    assert(hay@.subrange(i as int, i + needle@.len())[j as int] == needle@[
                        j as int
                    ]);
                }
            }
            return false;
        }
        j += 1;
    }
    assert(hay@.subrange(i as int, i + needle@.len()) =~= needle@);
    true
}

/// The least index at which `needle` occurs as a contiguous run of bytes in
/// `hay`, or `None` when it does not occur. An empty `needle` occurs at 0.
pub fn find_first(hay: &[u8], needle: &[u8]) -> (r: Option<usize>)
    ensures
        match r {
            Some(i) => first_occurrence(hay@, needle@) == Some(i as int),
            None => first_occurrence(hay@, needle@) is None,
        },
{
    if needle.len() > hay.len() {
        return None;
    }
    let end = hay.len() - needle.len();
    let mut i: usize = 0;
    loop
        invariant
            needle@.len() <= hay@.len(),
            end == hay@.len() - needle@.len(),
            i <= end,
            first_occurrence(hay@, needle@) == first_occurrence_from(hay@, needle@, i as int),
        decreases end - i,
    {
        if match_at(hay, needle, i) {
            return Some(i);
        }
        if i == end {
            proof {
                assert(first_occurrence_from(hay@, needle@, i + 1) is None);
            }
            return None;
        }
        i += 1;
    }
}

/// What `str::to_lowercase` returns for a given sequence of characters.
pub uninterp spec fn lower_of(s: Seq<char>) -> Seq<char>;

/// Relies on `str::to_lowercase`: its result depends on the characters of its
/// argument alone.
#[verifier::external_body]
fn to_lower(s: &str) -> (r: String)
    ensures
        r@ == lower_of(s@),
{
    s.to_lowercase()
}

/// The characters actually searched: the text itself in case-sensitive mode,
/// its case-folded form otherwise.
pub open spec fn fold_chars(s: Seq<char>, case_sensitive: bool) -> Seq<char> {
    if case_sensitive {
        s
    } else {
        lower_of(s)
    }
}

/// The bytes actually searched: the UTF-8 encoding of the (possibly folded)
/// characters.
pub open spec fn search_bytes(s: Seq<char>, case_sensitive: bool) -> Seq<u8> {
    encode_utf8(fold_chars(s, case_sensitive))
}

/// The byte offsets delimiting the first occurrence of `query` in `line`,
/// both taken after case folding when `case_sensitive` is false, or `None`
/// when `line` does not contain `query`.
pub open spec fn match_span(line: Seq<char>, query: Seq<char>, case_sensitive: bool) -> Option<
    (int, int),
> {
    match first_occurrence(
        search_bytes(line, case_sensitive),
        search_bytes(query, case_sensitive),
    ) {
        Some(i) => Some((i, i + search_bytes(query, case_sensitive).len())),
        None => None,
    }
}

/// `line` contains `query` under the given case sensitivity.
pub open spec fn line_matches(line: Seq<char>, query: Seq<char>, case_sensitive: bool) -> bool {
    match_span(line, query, case_sensitive) is Some
}

/// First-match-only: when a span is reported for a line, its start is the
/// least position at which the query's search bytes occur in the line's, its
/// end lies the query's byte length further, and no span is reported exactly
/// when the line does not contain the query.
pub proof fn lemma_match_span_first(line: Seq<char>, query: Seq<char>, case_sensitive: bool)
    ensures
        match match_span(line, query, case_sensitive) {
            Some(span) => is_first_occurrence(
                search_bytes(line, case_sensitive),
                search_bytes(query, case_sensitive),
                span.0,
            ) && span.1 == span.0 + search_bytes(query, case_sensitive).len(),
            None => !contains_needle(
                search_bytes(line, case_sensitive),
                search_bytes(query, case_sensitive),
            ),
        },
{
    lemma_first_occurrence(
        search_bytes(line, case_sensitive),
        search_bytes(query, case_sensitive),
    );
}

/// Returns the byte offsets of the first occurrence of `query` in `line`, or
/// `None` when `line` does not contain `query`. Only the first occurrence is
/// reported. In case-insensitive mode both line and query are case-folded
/// before searching and the offsets refer to the folded line; they are valid
/// offsets into the original line only for alphabets whose folding preserves
/// byte length (a documented limitation, not silently corrected).
pub fn find(line: &str, query: &str, case_sensitive: bool) -> (r: Option<(usize, usize)>)
    ensures
        match r {
            Some(span) => match_span(line@, query@, case_sensitive) == Some(
                (span.0 as int, span.1 as int),
            ),
            None => match_span(line@, query@, case_sensitive) is None,
        },
{
    if case_sensitive {
        let hay = line.as_bytes();
        let needle = query.as_bytes();
        match find_first(hay, needle) {
            Some(i) => {
                proof {
                    lemma_first_occurrence(hay@, needle@);
                }
                let hay_len: usize = hay.len();
                let needle_len: usize = needle.len();
                assert(i + needle_len <= hay_len);
                Some((i, i + needle_len))
            },
            None => None,
        }
    } else {
        let folded_line = to_lower(line);
        let folded_query = to_lower(query);
        let hay = folded_line.as_str().as_bytes();
        let needle = folded_query.as_str().as_bytes();
        match find_first(hay, needle) {
            Some(i) => {
                proof {
                    lemma_first_occurrence(hay@, needle@);
                }
                let hay_len: usize = hay.len();
                let needle_len: usize = needle.len();
                assert(i + needle_len <= hay_len);
                Some((i, i + needle_len))
            },
            None => None,
        }
    }
}

} // verus!
