//! Vectors of strings read as sequences and sets of names.
//!
//! A temporary or a hardware register is known by its name. In contracts a
//! name is the sequence of characters of the string that carries it.

use vstd::prelude::*;

verus! {

/// The names that a vector of strings holds, in the vector's order.
pub open spec fn names(v: Seq<String>) -> Seq<Seq<char>> {
    Seq::new(v.len(), |i: int| v[i]@)
}

/// `s` with `x` appended unless it is there already.
pub open spec fn with_name(s: Seq<Seq<char>>, x: Seq<char>) -> Seq<Seq<char>> {
    if s.contains(x) {
        s
    } else {
        s.push(x)
    }
}

/// The first occurrence of each name of `s`, in the order of `s`.
pub open spec fn first_occurrences(s: Seq<Seq<char>>) -> Seq<Seq<char>>
    decreases s.len(),
{
    if s.len() == 0 {
        Seq::empty()
    } else {
        with_name(first_occurrences(s.drop_last()), s.last())
    }
}

/// The least position at which `s` holds `x`, or the length of `s` where it does not.
pub open spec fn position_of(s: Seq<Seq<char>>, x: Seq<char>) -> int
    decreases s.len(),
{
    if s.len() == 0 {
        0
    } else if s.drop_last().contains(x) {
        position_of(s.drop_last(), x)
    } else if s.last() == x {
        s.len() - 1
    } else {
        s.len() as int
    }
}

/// `position_of` finds the first occurrence, and the length exactly when there is none.
pub proof fn lemma_position_of(s: Seq<Seq<char>>, x: Seq<char>)
    ensures
        0 <= position_of(s, x) <= s.len(),
        s.contains(x) <==> position_of(s, x) < s.len(),
        s.contains(x) ==> s[position_of(s, x)] == x,
        forall|j: int| 0 <= j < position_of(s, x) ==> s[j] != x,
    decreases s.len(),
{
    if s.len() > 0 {
        let head = s.drop_last();
        lemma_position_of(head, x);
        if head.contains(x) {
            let w = choose|j: int| 0 <= j < head.len() && head[j] == x;
            assert(s[w] == x);
            assert(s[position_of(head, x)] == head[position_of(head, x)]);
            assert forall|j: int| 0 <= j < position_of(s, x) implies s[j] != x by {
                assert(s[j] == head[j]);
            }
        } else {
            assert forall|j: int| 0 <= j < s.len() - 1 implies s[j] != x by {
                assert(s[j] == head[j]);
            }
            if s.last() == x {
                assert(s[s.len() - 1] == x);
            } else {
                assert forall|j: int| 0 <= j < s.len() implies s[j] != x by {
                    if j < s.len() - 1 {
                        assert(s[j] == head[j]);
                    }
                }
            }
        }
    }
}

/// In a sequence without repeats each name sits at its own position.
pub proof fn lemma_position_of_distinct(s: Seq<Seq<char>>, i: int)
    requires
        s.no_duplicates(),
        0 <= i < s.len(),
    ensures
        position_of(s, s[i]) == i,
{
    lemma_position_of(s, s[i]);
    assert(s.contains(s[i]));
}

/// `first_occurrences` keeps every name once and adds none.
pub proof fn lemma_first_occurrences(s: Seq<Seq<char>>)
    ensures
        first_occurrences(s).no_duplicates(),
        first_occurrences(s).len() <= s.len(),
        forall|x: Seq<char>| first_occurrences(s).contains(x) <==> s.contains(x),
    decreases s.len(),
{
    if s.len() > 0 {
        let head = s.drop_last();
        let d = first_occurrences(head);
        lemma_first_occurrences(head);
        assert forall|x: Seq<char>| first_occurrences(s).contains(x) <==> s.contains(x) by {
            lemma_with_name(d, s.last());
            if s.contains(x) {
                let j = choose|j: int| 0 <= j < s.len() && s[j] == x;
                if j < s.len() - 1 {
                    assert(head[j] == x);
                }
            }
            if head.contains(x) {
                let j = choose|j: int| 0 <= j < head.len() && head[j] == x;
                assert(s[j] == x);
            }
            assert(s[s.len() - 1] == s.last());
        }
        lemma_with_name(d, s.last());
    }
}

/// Appending a name to a sequence adds it to the first occurrences unless it is among them.
pub proof fn lemma_first_occurrences_push(s: Seq<Seq<char>>, x: Seq<char>)
    ensures
        first_occurrences(s.push(x)) == with_name(first_occurrences(s), x),
{
    assert(s.push(x).drop_last() =~= s);
}

/// What `with_name` holds, and that it keeps a sequence free of repeats.
pub proof fn lemma_with_name(s: Seq<Seq<char>>, x: Seq<char>)
    ensures
        forall|y: Seq<char>| with_name(s, x).contains(y) <==> (s.contains(y) || y == x),
        s.no_duplicates() ==> with_name(s, x).no_duplicates(),
        s.len() <= with_name(s, x).len() <= s.len() + 1,
        forall|j: int| 0 <= j < s.len() ==> with_name(s, x)[j] == s[j],
{
    if !s.contains(x) {
        let t = s.push(x);
        assert forall|y: Seq<char>| t.contains(y) <==> (s.contains(y) || y == x) by {
            if t.contains(y) {
                let j = choose|j: int| 0 <= j < t.len() && t[j] == y;
                if j < s.len() {
                    assert(s[j] == y);
                }
            }
            if s.contains(y) {
                let j = choose|j: int| 0 <= j < s.len() && s[j] == y;
                assert(t[j] == y);
            }
            assert(t[s.len() as int] == x);
        }
    }
}

/// Whether `v` holds the name of `x`.
pub fn contains_name(v: &Vec<String>, x: &String) -> (r: bool)
    ensures
        r == names(v@).contains(x@),
{
    let mut i: usize = 0;
    while i < v.len()
        invariant
            i <= v.len(),
            forall|j: int| 0 <= j < i ==> names(v@)[j] != x@,
        decreases v.len() - i,
    {
        if v[i] == *x {
            assert(names(v@)[i as int] == x@);
            return true;
        }
        i += 1;
    }
    false
}

/// The first position at which `v` holds the name of `x`.
pub fn find_name(v: &Vec<String>, x: &String) -> (r: Option<usize>)
    ensures
        match r {
            Some(i) => i < v.len() && i == position_of(names(v@), x@),
            None => position_of(names(v@), x@) == v.len(),
        },
        r is Some <==> names(v@).contains(x@),
{
    let mut i: usize = 0;
    while i < v.len()
        invariant
            i <= v.len(),
            forall|j: int| 0 <= j < i ==> names(v@)[j] != x@,
        decreases v.len() - i,
    {
        if v[i] == *x {
            proof {
                assert(names(v@)[i as int] == x@);
                lemma_position_of(names(v@), x@);
            }
            return Some(i);
        }
        i += 1;
    }
    proof {
        lemma_position_of(names(v@), x@);
    }
    None
}

/// Appends a copy of `x` to `v` unless `v` holds its name already. Returns
/// whether `v` grew.
pub fn insert_name(v: &mut Vec<String>, x: &String) -> (grew: bool)
    ensures
        names(final(v)@) == with_name(names(old(v)@), x@),
        grew == !names(old(v)@).contains(x@),
        forall|j: int| 0 <= j < old(v)@.len() ==> final(v)@[j] == old(v)@[j],
{
    if contains_name(v, x) {
        false
    } else {
        v.push(x.clone());
        assert(names(v@) =~= names(old(v)@).push(x@));
        true
    }
}

/// A copy of `v`, string by string.
pub fn clone_names(v: &Vec<String>) -> (r: Vec<String>)
    ensures
        r@ == v@,
{
    let mut r: Vec<String> = Vec::new();
    let mut i: usize = 0;
    while i < v.len()
        invariant
            i <= v.len(),
            r@ == v@.subrange(0, i as int),
        decreases v.len() - i,
    {
        r.push(v[i].clone());
        assert(r@ =~= v@.subrange(0, i + 1));
        i += 1;
    }
    assert(v@.subrange(0, v@.len() as int) =~= v@);
    r
}

} // verus!
