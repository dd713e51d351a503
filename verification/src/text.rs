//! Splitting, searching and joining of text.

use vstd::prelude::*;

verus! {

/// The parts of `s` before and after the first `separator` in it.
pub open spec fn split_at_first(s: Seq<char>, separator: char) -> Option<(Seq<char>, Seq<char>)> {
    match s.index_of_first(separator) {
        Some(i) => Some((s.take(i), s.skip(i + 1))),
        None => None,
    }
}

/// Where the first character of `s` stands that `accepted` turns down.
pub open spec fn first_rejected(s: Seq<char>, accepted: spec_fn(char) -> bool) -> Option<int> {
    if s.all(accepted) {
        None
    } else {
        Some(choose|i: int| is_first_rejected(s, accepted, i))
    }
}

/// `i` is where the first character of `s` stands that `accepted` turns down.
pub open spec fn is_first_rejected(s: Seq<char>, accepted: spec_fn(char) -> bool, i: int) -> bool {
    &&& 0 <= i < s.len()
    &&& !accepted(s[i])
    &&& forall|j: int| 0 <= j < i ==> accepted(#[trigger] s[j])
}

/// There is only one first rejected character.
pub proof fn lemma_first_rejected(s: Seq<char>, accepted: spec_fn(char) -> bool, i: int)
    requires
        is_first_rejected(s, accepted, i),
    ensures
        first_rejected(s, accepted) == Some(i),
{
    let k = choose|k: int| is_first_rejected(s, accepted, k);
    assert(is_first_rejected(s, accepted, k));
    if k < i {
        assert(accepted(s[k]));
    } else if i < k {
        assert(accepted(s[i]));
    }
}

/// There is only one first occurrence.
pub proof fn lemma_first_occurrence(s: Seq<char>, needle: char, i: int)
    requires
        0 <= i < s.len(),
        s[i] == needle,
        forall|j: int| 0 <= j < i ==> s[j] != needle,
    ensures
        s.index_of_first(needle) == Some(i),
{
    s.index_of_first_ensures(needle);
    assert(s.contains(needle));
}

/// The elements of `parts` in order, with `separator` between neighbours.
pub open spec fn joined(parts: Seq<Seq<char>>, separator: Seq<char>) -> Seq<char>
    decreases parts.len(),
{
    if parts.len() == 0 {
        seq![]
    } else if parts.len() == 1 {
        parts[0]
    } else {
        joined(parts.drop_last(), separator) + separator + parts.last()
    }
}

/// The number of characters before the first `needle` in `s`.
fn find_char(s: &str, needle: char) -> (r: Option<usize>)
    ensures
        match r {
            Some(i) => s@.index_of_first(needle) == Some(i as int) && i < s@.len(),
            None => s@.index_of_first(needle) is None,
        },
{
    let n: usize = s.unicode_len();
    let mut i: usize = 0;
    while i < n
        invariant
            i <= n,
            n == s@.len(),
            forall|j: int| 0 <= j < i ==> s@[j] != needle,
        decreases n - i,
    {
        if s.get_char(i) == needle {
            proof {
                lemma_first_occurrence(s@, needle, i as int);
            }
            return Some(i);
        }
        i += 1;
    }
    proof {
        s@.index_of_first_ensures(needle);
    }
    None
}

/// Splits `s` around the first `separator`.
pub fn split_once<'a>(s: &'a str, separator: char) -> (r: Option<(&'a str, &'a str)>)
    ensures
        match r {
            Some((before, after)) => split_at_first(s@, separator) == Some((before@, after@)),
            None => split_at_first(s@, separator) is None,
        },
{
    match find_char(s, separator) {
        Some(i) => {
            let n: usize = s.unicode_len();
            let before = s.substring_char(0, i);
            let after = s.substring_char(i + 1, n);
            assert(before@ =~= s@.take(i as int));
            assert(after@ =~= s@.skip(i + 1));
            Some((before, after))
        },
        None => None,
    }
}

/// Whether `needle` occurs in `s`.
pub fn contains_char(s: &str, needle: char) -> (r: bool)
    ensures
        r == s@.contains(needle),
{
    proof {
        s@.index_of_first_ensures(needle);
    }
    find_char(s, needle).is_some()
}

/// Joins `parts` with `separator` between neighbours.
pub fn join(parts: &[String], separator: &str) -> (r: String)
    ensures
        r@ == joined(parts.deep_view(), separator@),
{
    let ghost all = parts.deep_view();
    let mut r = String::new();
    let n: usize = parts.len();
    let mut i: usize = 0;
    while i < n
        invariant
            i <= n,
            n == parts@.len(),
            all == parts.deep_view(),
            r@ == joined(all.take(i as int), separator@),
        decreases n - i,
    {
        proof {
            assert(all.take(i + 1).drop_last() =~= all.take(i as int));
            assert(all[i as int] == parts@[i as int]@);
        }
        if i > 0 {
            r.append(separator);
        } else {
            assert(r@ =~= Seq::<char>::empty());
        }
        r.append(parts[i].as_str());
        assert(r@ =~= joined(all.take(i + 1), separator@));
        i += 1;
    }
    assert(all.take(n as int) =~= all);
    r
}

} // verus!
