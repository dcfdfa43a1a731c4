//! Facts about sequences and the sets of their elements.

use vstd::prelude::*;

verus! {

pub proof fn lemma_push_to_set<T>(s: Seq<T>, x: T)
    ensures
        s.push(x).to_set() == s.to_set().insert(x),
{
    assert forall|y: T| s.push(x).to_set().contains(y) <==> s.to_set().insert(x).contains(y) by {
        if s.contains(y) {
            let k = choose|k: int| 0 <= k < s.len() && s[k] == y;
            assert(s.push(x)[k] == y);
        }
        assert(s.push(x)[s.len() as int] == x);
        if s.push(x).contains(y) {
            let k = choose|k: int| 0 <= k < s.push(x).len() && s.push(x)[k] == y;
            if k < s.len() {
                assert(s[k] == y);
            }
        }
    }
    assert(s.push(x).to_set() =~= s.to_set().insert(x));
}

pub proof fn lemma_push_no_duplicates<T>(s: Seq<T>, x: T)
    requires
        s.no_duplicates(),
        !s.contains(x),
    ensures
        s.push(x).no_duplicates(),
{
    let longer = s.push(x);
    assert forall|i: int, j: int|
        0 <= i < longer.len() && 0 <= j < longer.len() && i != j implies longer[i]
        != longer[j] by {
        if i < s.len() && j < s.len() {
            assert(s[i] != s[j]);
        } else if i < s.len() {
            assert(s.contains(s[i]));
        } else {
            assert(s.contains(s[j]));
        }
    }
}

pub proof fn lemma_remove_to_set<T>(s: Seq<T>, i: int)
    requires
        0 <= i < s.len(),
        s.no_duplicates(),
    ensures
        s.remove(i).to_set() == s.to_set().remove(s[i]),
        s.remove(i).no_duplicates(),
{
    let shorter = s.remove(i);
    assert forall|k: int| 0 <= k < shorter.len() implies shorter[k] == (if k < i {
        s[k]
    } else {
        s[k + 1]
    }) by {}
    assert forall|y: T| shorter.to_set().contains(y) <==> s.to_set().remove(s[i]).contains(y) by {
        if shorter.contains(y) {
            let k = choose|k: int| 0 <= k < shorter.len() && shorter[k] == y;
            if k < i {
                assert(s[k] == y);
            } else {
                assert(s[k + 1] == y);
            }
        }
        if s.contains(y) && y != s[i] {
            let k = choose|k: int| 0 <= k < s.len() && s[k] == y;
            if k < i {
                assert(shorter[k] == y);
            } else {
                assert(shorter[k - 1] == y);
            }
        }
    }
    assert(shorter.to_set() =~= s.to_set().remove(s[i]));
}

pub proof fn lemma_insert_to_set<T>(s: Seq<T>, at: int, x: T)
    requires
        0 <= at <= s.len(),
    ensures
        s.insert(at, x).to_set() == s.to_set().insert(x),
{
    let longer = s.insert(at, x);
    assert forall|y: T| longer.contains(y) <==> s.contains(y) || y == x by {
        if s.contains(y) {
            let k = choose|k: int| 0 <= k < s.len() && s[k] == y;
            if k < at {
                assert(longer[k] == y);
            } else {
                assert(longer[k + 1] == y);
            }
        }
        assert(longer[at] == x);
        if longer.contains(y) && y != x {
            let k = choose|k: int| 0 <= k < longer.len() && longer[k] == y;
            if k < at {
                assert(s[k] == y);
            } else {
                assert(s[k - 1] == y);
            }
        }
    }
    assert(longer.to_set() =~= s.to_set().insert(x));
}

/// Different numbers below a bound are no more than the bound.
pub proof fn lemma_distinct_bounded(s: Seq<int>, n: int)
    requires
        s.no_duplicates(),
        n >= 0,
        forall|k: int| 0 <= k < s.len() ==> 0 <= #[trigger] s[k] < n,
    ensures
        s.len() <= n,
{
    s.unique_seq_to_set();
    vstd::set_lib::lemma_int_range(0, n);
    assert(s.to_set().subset_of(vstd::set_lib::set_int_range(0, n)));
    vstd::set_lib::lemma_len_subset(s.to_set(), vstd::set_lib::set_int_range(0, n));
}

/// Where a number stands among others, if it does.
pub fn place_among(places: &Vec<usize>, wanted: usize) -> (r: Option<usize>)
    ensures
        match r {
            Some(k) => k < places@.len() && places@[k as int] == wanted,
            None => !places@.contains(wanted),
        },
{
    let mut k: usize = 0;
    while k < places.len()
        invariant
            k <= places.len(),
            forall|m: int| 0 <= m < k ==> #[trigger] places@[m] != wanted,
        decreases places.len() - k,
    {
        if places[k] == wanted {
            return Some(k);
        }
        k += 1;
    }
    None
}

} // verus!
