//! File-level filtering decisions: which extensions are scanned under the
//! included and excluded extension lists, and what marks a file as binary.

use vstd::prelude::*;

verus! {

/// `list` holds a string whose characters are `s`.
pub open spec fn list_has(list: Seq<String>, s: Seq<char>) -> bool {
    exists|j: int| 0 <= j < list.len() && (#[trigger] list[j])@ == s
}

/// The view of an optional extension list.
pub open spec fn list_view(o: Option<Vec<String>>) -> Option<Seq<String>> {
    match o {
        Some(v) => Some(v@),
        None => None,
    }
}

/// The extension decision: excluded extensions are always skipped; with an
/// inclusion list, only listed extensions are kept; a file without an
/// extension is matched against neither list, so an exclusion list keeps it
/// and an inclusion list skips it.
pub open spec fn ignored_spec(ext: Seq<char>, include_list: Option<Seq<String>>, exclude_list: Option<Seq<String>>) -> bool {
    let excluded = match exclude_list {
        Some(e) => ext.len() > 0 && list_has(e, ext),
        None => false,
    };
    if excluded {
        true
    } else {
        match include_list {
            Some(i) => !(ext.len() > 0 && list_has(i, ext)),
            None => false,
        }
    }
}

fn list_contains(list: &Vec<String>, s: &String) -> (r: bool)
    ensures
        r == list_has(list@, s@),
{
    let mut j: usize = 0;
    while j < list.len()
        invariant
            j <= list@.len(),
            forall|i: int| 0 <= i < j ==> (#[trigger] list@[i])@ != s@,
        decreases list@.len() - j,
    {
        if list[j] == *s {
            assert(list_has(list@, s@));
            return true;
        }
        j += 1;
    }
    assert(!list_has(list@, s@)) by {
        if list_has(list@, s@) {
            let w = choose|w: int| 0 <= w < list@.len() && (#[trigger] list@[w])@ == s@;
        }
    }
    false
}

/// Decides whether a file with extension `ext` is skipped under the
/// configured inclusion and exclusion extension lists.
pub fn file_is_ignored(ext: &String, include_list: &Option<Vec<String>>, exclude_list: &Option<Vec<String>>) -> (r: bool)
    ensures
        r == ignored_spec(ext@, list_view(*include_list), list_view(*exclude_list)),
{
    let has_ext = !ext.as_str().is_empty();
    let mut should_ignore: bool = match exclude_list {
        Some(e) => has_ext && list_contains(e, ext),
        None => false,
    };
    if !should_ignore {
        match include_list {
            Some(i) => {
                should_ignore = !(has_ext && list_contains(i, ext));
            },
            None => {},
        }
    }
    should_ignore
}

/// A leading chunk of a file marks it as binary when it holds a NUL byte.
pub open spec fn has_nul(bytes: Seq<u8>) -> bool {
    exists|i: int| 0 <= i < bytes.len() && bytes[i] == 0
}

/// Decides whether a peeked chunk of a file identifies binary content: true
/// exactly when the chunk holds a NUL byte.
pub fn chunk_is_binary(bytes: &[u8]) -> (r: bool)
    ensures
        r == has_nul(bytes@),
{
    let mut i: usize = 0;
    while i < bytes.len()
        invariant
            i <= bytes@.len(),
            forall|j: int| 0 <= j < i ==> bytes@[j] != 0,
        decreases bytes@.len() - i,
    {
        if bytes[i] == 0 {
            assert(has_nul(bytes@));
            return true;
        }
        i += 1;
    }
    assert(!has_nul(bytes@)) by {
        if has_nul(bytes@) {
            let w = choose|w: int| 0 <= w < bytes@.len() && bytes@[w] == 0;
        }
    }
    false
}

} // verus!
