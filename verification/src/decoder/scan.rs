//! Substring search, done by `memchr`.

use vstd::prelude::*;

verus! {

/// `needle` stands in `haystack` at position `i`.
pub open spec fn occurs_at(haystack: Seq<u8>, needle: Seq<u8>, i: int) -> bool {
    &&& 0 <= i
    &&& i + needle.len() <= haystack.len()
    &&& haystack.subrange(i, i + needle.len()) == needle
}

/// `i` is the first position at or after `from` at which `needle` stands in
/// `haystack`.
pub open spec fn is_first_occurrence(haystack: Seq<u8>, needle: Seq<u8>, from: int, i: int) -> bool {
    &&& from <= i
    &&& occurs_at(haystack, needle, i)
    &&& forall|j: int| from <= j < i ==> !occurs_at(haystack, needle, j)
}

/// The first position at or after `from` at which `needle` stands in
/// `haystack`, if there is one.
pub open spec fn first_occurrence(haystack: Seq<u8>, needle: Seq<u8>, from: int) -> Option<int> {
    if exists|i: int| from <= i && occurs_at(haystack, needle, i) {
        Some(choose|i: int| is_first_occurrence(haystack, needle, from, i))
    } else {
        None
    }
}

/// `memchr::memmem::find`: the index of the first occurrence of `needle` in
/// `haystack`, or nothing if there is none.
#[verifier::external_body]
pub(crate) fn find(haystack: &[u8], needle: &[u8]) -> (r: Option<usize>)
    ensures
        match r {
            Some(i) => is_first_occurrence(haystack@, needle@, 0, i as int),
            None => forall|j: int| !occurs_at(haystack@, needle@, j),
        },
{
    memchr::memmem::find(haystack, needle)
}

/// Among the positions from `from` on where `needle` stands, one is the first.
pub proof fn lemma_first_exists(haystack: Seq<u8>, needle: Seq<u8>, from: int, i: int)
    requires
        from <= i,
        occurs_at(haystack, needle, i),
    ensures
        exists|k: int| is_first_occurrence(haystack, needle, from, k),
    decreases i - from,
{
    if exists|j: int| from <= j < i && occurs_at(haystack, needle, j) {
        let j = choose|j: int| from <= j < i && occurs_at(haystack, needle, j);
        lemma_first_exists(haystack, needle, from, j);
    } else {
        assert(is_first_occurrence(haystack, needle, from, i));
    }
}

/// What `first_occurrence` is: the one first position, or none.
pub proof fn lemma_first_occurrence(haystack: Seq<u8>, needle: Seq<u8>, from: int)
    ensures
        match first_occurrence(haystack, needle, from) {
            Some(i) => is_first_occurrence(haystack, needle, from, i),
            None => forall|j: int| from <= j ==> !occurs_at(haystack, needle, j),
        },
        forall|i: int| is_first_occurrence(haystack, needle, from, i) ==> first_occurrence(haystack, needle, from) == Some(i),
{
    if exists|i: int| from <= i && occurs_at(haystack, needle, i) {
        let i = choose|i: int| from <= i && occurs_at(haystack, needle, i);
        lemma_first_exists(haystack, needle, from, i);
    }
    assert forall|i: int| is_first_occurrence(haystack, needle, from, i) implies first_occurrence(
        haystack,
        needle,
        from,
    ) == Some(i) by {
        let k = choose|k: int| is_first_occurrence(haystack, needle, from, k);
        assert(k == i);
    }
}

/// The first occurrence from `from` on, found by searching the rest of the
/// buffer.
pub fn find_from(haystack: &[u8], needle: &[u8], from: usize) -> (r: Option<usize>)
    requires
        from <= haystack@.len(),
    ensures
        match r {
            Some(i) => first_occurrence(haystack@, needle@, from as int) == Some(i as int) && from <= i && i
                + needle@.len() <= haystack@.len() <= usize::MAX,
            None => first_occurrence(haystack@, needle@, from as int) is None,
        },
{
    let rest = vstd::slice::slice_subrange(haystack, from, haystack.len());
    let found = find(rest, needle);
    proof {
        lemma_first_occurrence(haystack@, needle@, from as int);
        assert forall|j: int| occurs_at(rest@, needle@, j) <==> occurs_at(haystack@, needle@, from + j) && j >= 0 by {
            if 0 <= j && j + needle@.len() <= rest@.len() {
                assert(rest@.subrange(j, j + needle@.len()) =~= haystack@.subrange(
                    from + j,
                    from + j + needle@.len(),
                ));
            }
        }
    }
    match found {
        Some(i) => {
            proof {
                assert(occurs_at(haystack@, needle@, from + i));
                assert forall|j: int| from <= j < from + i implies !occurs_at(haystack@, needle@, j) by {
                    assert(!occurs_at(rest@, needle@, j - from));
                }
                assert(is_first_occurrence(haystack@, needle@, from as int, from + i));
            }
            Some(from + i)
        },
        None => {
            proof {
                assert forall|j: int| from <= j implies !occurs_at(haystack@, needle@, j) by {
                    assert(!occurs_at(rest@, needle@, j - from));
                }
            }
            None
        },
    }
}

} // verus!
