//! Sequences of node identities: taking an element out, joining, and what
//! that does to membership and to repeats.

use vstd::prelude::*;

verus! {

/// The sequence `s` with the element at the first position holding `x` taken
/// out; `s` itself when `x` does not occur.
pub open spec fn without(s: Seq<u128>, x: u128) -> Seq<u128> {
    if s.contains(x) {
        s.remove(s.index_of(x))
    } else {
        s
    }
}

/// What `without` keeps: every element but `x`, each still once.
pub proof fn lemma_without(s: Seq<u128>, x: u128)
    requires
        s.no_duplicates(),
    ensures
        without(s, x).no_duplicates(),
        forall|y: u128| #[trigger] without(s, x).contains(y) <==> s.contains(y) && y != x,
        s.contains(x) ==> without(s, x).len() + 1 == s.len(),
        !s.contains(x) ==> without(s, x) == s,
{
    if s.contains(x) {
        let i = s.index_of(x);
        let t = s.remove(i);
        assert(t.len() + 1 == s.len());
        assert forall|a: int, b: int| 0 <= a < t.len() && 0 <= b < t.len() && a != b implies t[a]
            != t[b] by {
            let a2 = if a < i { a } else { a + 1 };
            let b2 = if b < i { b } else { b + 1 };
            assert(t[a] == s[a2]);
            assert(t[b] == s[b2]);
        }
        assert forall|y: u128| #[trigger] t.contains(y) <==> s.contains(y) && y != x by {
            if t.contains(y) {
                let a = choose|a: int| 0 <= a < t.len() && t[a] == y;
                let a2 = if a < i { a } else { a + 1 };
                assert(t[a] == s[a2]);
                assert(s.contains(y));
            }
            if s.contains(y) && y != x {
                let b = choose|b: int| 0 <= b < s.len() && s[b] == y;
                let a = if b < i { b } else { b - 1 };
                assert(t[a] == s[b]);
                assert(t.contains(y));
            }
        }
    }
}

/// An element occurs in `a + b` exactly when it occurs in `a` or in `b`.
pub proof fn lemma_concat_contains(a: Seq<u128>, b: Seq<u128>)
    ensures
        forall|x: u128| #[trigger] (a + b).contains(x) <==> a.contains(x) || b.contains(x),
{
    let s = a + b;
    assert forall|x: u128| #[trigger] s.contains(x) <==> a.contains(x) || b.contains(x) by {
        if s.contains(x) {
            let i = choose|i: int| 0 <= i < s.len() && s[i] == x;
            if i < a.len() {
                assert(a[i] == x);
            } else {
                assert(b[i - a.len()] == x);
            }
        }
        if a.contains(x) {
            let i = choose|i: int| 0 <= i < a.len() && a[i] == x;
            assert(s[i] == x);
        }
        if b.contains(x) {
            let i = choose|i: int| 0 <= i < b.len() && b[i] == x;
            assert(s[a.len() + i] == x);
        }
    }
}

/// Two sequences without repeats that share no element join into one
/// without repeats.
pub proof fn lemma_concat_no_duplicates(a: Seq<u128>, b: Seq<u128>)
    requires
        a.no_duplicates(),
        b.no_duplicates(),
        forall|x: u128| a.contains(x) ==> !b.contains(x),
    ensures
        (a + b).no_duplicates(),
{
    let s = a + b;
    assert forall|i: int, j: int| 0 <= i < s.len() && 0 <= j < s.len() && i != j implies s[i]
        != s[j] by {
        if i < a.len() && j >= a.len() {
            assert(a.contains(a[i]));
            assert(b.contains(b[j - a.len()]));
        }
        if j < a.len() && i >= a.len() {
            assert(a.contains(a[j]));
            assert(b.contains(b[i - a.len()]));
        }
    }
}

/// Taking the last element off a sequence without repeats leaves the other
/// elements, without repeats and without the one taken.
pub proof fn lemma_drop_last(s: Seq<u128>)
    requires
        s.no_duplicates(),
        s.len() > 0,
    ensures
        s.drop_last().no_duplicates(),
        !s.drop_last().contains(s.last()),
        forall|x: u128| #[trigger] s.contains(x) <==> s.drop_last().contains(x) || x == s.last(),
{
    let rest = s.drop_last();
    if rest.contains(s.last()) {
        let i = choose|i: int| 0 <= i < rest.len() && rest[i] == s.last();
        assert(s[i] == s[s.len() - 1]);
    }
    assert forall|x: u128| #[trigger] s.contains(x) <==> rest.contains(x) || x == s.last() by {
        if s.contains(x) {
            let i = choose|i: int| 0 <= i < s.len() && s[i] == x;
            if i < rest.len() {
                assert(rest[i] == x);
            }
        }
        if rest.contains(x) {
            let i = choose|i: int| 0 <= i < rest.len() && rest[i] == x;
            assert(s[i] == x);
        }
        if x == s.last() {
            assert(s[s.len() - 1] == x);
        }
    }
}

/// What appending one element does to membership and to repeats.
pub proof fn lemma_push(s: Seq<u128>, x: u128)
    ensures
        forall|y: u128| #[trigger] s.push(x).contains(y) <==> s.contains(y) || y == x,
        s.no_duplicates() && !s.contains(x) ==> s.push(x).no_duplicates(),
{
    assert(s.push(x) == s + seq![x]);
    lemma_concat_contains(s, seq![x]);
    assert forall|y: u128| #[trigger] seq![x].contains(y) <==> y == x by {
        if y == x {
            assert(seq![x][0] == y);
        }
    }
    if s.no_duplicates() && !s.contains(x) {
        lemma_concat_no_duplicates(s, seq![x]);
    }
}

/// Whether `x` occurs in `v`.
pub fn vec_contains(v: &Vec<u128>, x: u128) -> (found: bool)
    ensures
        found == v@.contains(x),
{
    let mut i: usize = 0;
    while i < v.len()
        invariant
            i <= v.len(),
            forall|j: int| 0 <= j < i ==> v@[j] != x,
        decreases v.len() - i,
    {
        if v[i] == x {
            return true;
        }
        i += 1;
    }
    false
}

/// Takes `x` out of `v`, keeping the order of the rest.
pub fn vec_remove_value(v: &mut Vec<u128>, x: u128)
    requires
        old(v)@.no_duplicates(),
    ensures
        final(v)@ == without(old(v)@, x),
{
    let mut i: usize = 0;
    while i < v.len()
        invariant
            i <= v.len(),
            v@ == old(v)@,
            v@.no_duplicates(),
            forall|j: int| 0 <= j < i ==> v@[j] != x,
        decreases v.len() - i,
    {
        if v[i] == x {
            proof {
                assert(v@.contains(x));
                let k = v@.index_of(x);
                assert(v@[k] == v@[i as int]);
            }
            v.remove(i);
            return ;
        }
        i += 1;
    }
}

} // verus!
