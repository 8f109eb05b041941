//! Truncation of diagnostic messages at the literal `" at line"`.
//!
//! Some text decoders append positional context (`"... at line 3 column 7"`)
//! to their messages. Stored messages and incoming payload text are cut at
//! the first occurrence of that literal so that payloads stay stable and
//! comparable, independent of input offsets.

use vstd::prelude::*;

verus! {

/// The marker that starts positional context: the eight characters of
/// `" at line"`.
pub open spec fn line_pat() -> Seq<char> {
    seq![' ', 'a', 't', ' ', 'l', 'i', 'n', 'e']
}

/// `line_pat()` occurs in `s` at position `i`.
pub open spec fn pat_at(s: Seq<char>, i: int) -> bool {
    0 <= i && i + 8 <= s.len() && s.subrange(i, i + 8) == line_pat()
}

/// `line_pat()` occurs somewhere in `s`.
pub open spec fn pat_in(s: Seq<char>) -> bool {
    exists|i: int| pat_at(s, i)
}

/// The position of the first occurrence of `line_pat()` in `s` at or after
/// `i`, if any.
pub open spec fn find_pat_from(s: Seq<char>, i: int) -> Option<int>
    decreases s.len() - i when i >= 0
{
    if i < 0 || i + 8 > s.len() {
        None
    } else if s.subrange(i, i + 8) == line_pat() {
        Some(i)
    } else {
        find_pat_from(s, i + 1)
    }
}

/// `s` cut at the first occurrence of `line_pat()`; `s` itself when the
/// marker does not occur.
pub open spec fn truncate_at_pat(s: Seq<char>) -> Seq<char> {
    match find_pat_from(s, 0) {
        Some(i) => s.take(i),
        None => s,
    }
}

/// `find_pat_from` finds exactly the first occurrence at or after `i`.
pub proof fn lemma_find_pat_from_correct(s: Seq<char>, i: int)
    requires
        0 <= i,
    ensures
        match find_pat_from(s, i) {
            Some(j) => pat_at(s, j) && i <= j && forall|k: int| i <= k < j ==> !pat_at(s, k),
            None => forall|k: int| i <= k ==> !pat_at(s, k),
        },
    decreases s.len() - i
{
    if i + 8 > s.len() {
        assert(forall|k: int| i <= k ==> !pat_at(s, k));
    } else if s.subrange(i, i + 8) == line_pat() {
    } else {
        lemma_find_pat_from_correct(s, i + 1);
    }
}

/// When the marker does not occur in `s`, truncation leaves `s` unchanged.
pub proof fn lemma_truncate_id(s: Seq<char>)
    requires
        !pat_in(s),
    ensures
        truncate_at_pat(s) == s,
{
    lemma_find_pat_from_correct(s, 0);
    if find_pat_from(s, 0) is Some {
        assert(pat_at(s, find_pat_from(s, 0).unwrap()));
    }
}

/// Whether `line_pat()` occurs in `s` at position `i`, decided by
/// comparing the eight characters.
fn pat_at_exec(s: &str, i: usize) -> (r: bool)
    requires
        i + 8 <= s@.len(),
        s@.len() <= usize::MAX,
    ensures
        r == pat_at(s@, i as int),
{
    let r = s.get_char(i) == ' ' && s.get_char(i + 1) == 'a' && s.get_char(i + 2) == 't'
        && s.get_char(i + 3) == ' ' && s.get_char(i + 4) == 'l' && s.get_char(i + 5) == 'i'
        && s.get_char(i + 6) == 'n' && s.get_char(i + 7) == 'e';
    proof {
        if r {
            assert(s@.subrange(i as int, i as int + 8) =~= line_pat());
        }
        if pat_at(s@, i as int) {
            assert(s@.subrange(i as int, i as int + 8) == line_pat());
            assert(s@[i as int] == line_pat()[0]);
            assert(s@[i as int + 1] == line_pat()[1]);
            assert(s@[i as int + 2] == line_pat()[2]);
            assert(s@[i as int + 3] == line_pat()[3]);
            assert(s@[i as int + 4] == line_pat()[4]);
            assert(s@[i as int + 5] == line_pat()[5]);
            assert(s@[i as int + 6] == line_pat()[6]);
            assert(s@[i as int + 7] == line_pat()[7]);
        }
    }
    r
}

/// The position of the first occurrence of `line_pat()` in `s`, if any.
pub fn find_pat(s: &str) -> (r: Option<usize>)
    ensures
        match r {
            Some(i) => find_pat_from(s@, 0) == Some(i as int),
            None => find_pat_from(s@, 0) is None,
        },
{
    let n = s.unicode_len();
    if n < 8 {
        return None;
    }
    let mut i: usize = 0;
    while i <= n - 8
        invariant
            n == s@.len(),
            8 <= n,
            0 <= i <= n - 8 + 1,
            find_pat_from(s@, 0) == find_pat_from(s@, i as int),
        decreases n - i
    {
        if pat_at_exec(s, i) {
            return Some(i);
        }
        i = i + 1;
    }
    None
}

/// `s` with everything from the first `" at line"` on removed; a copy of
/// `s` when the marker does not occur.
pub fn truncate_msg(s: &str) -> (r: String)
    ensures
        r@ == truncate_at_pat(s@),
{
    match find_pat(s) {
        Some(i) => {
            proof {
                lemma_find_pat_from_correct(s@, 0);
            }
            let t = s.substring_char(0, i);
            proof {
                assert(t@ =~= s@.take(i as int));
            }
            t.to_owned()
        },
        None => s.to_owned(),
    }
}

} // verus!
