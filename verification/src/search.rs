//! First-match search over a sequence, as a spec function together with the
//! lemmas that characterize it.  The rewrite pass resolves names by scanning
//! lists in declaration order, first hit wins; `find_first` is that scan.
use vstd::prelude::*;

verus! {

/// Index of the first element of `s` satisfying `p`, if any.
pub open spec fn find_first<T>(s: Seq<T>, p: spec_fn(T) -> bool) -> Option<int>
    decreases s.len(),
{
    if s.len() == 0 {
        None
    } else if p(s[0]) {
        Some(0)
    } else {
        match find_first(s.drop_first(), p) {
            Some(i) => Some(i + 1),
            None => None,
        }
    }
}

/// `find_first` returns the least index satisfying `p`, and `None` exactly
/// when no element satisfies `p`.
pub proof fn lemma_find_first<T>(s: Seq<T>, p: spec_fn(T) -> bool)
    ensures
        match find_first(s, p) {
            Some(i) => 0 <= i < s.len() && p(s[i]) && (forall|j: int|
                0 <= j < i ==> !#[trigger] p(s[j])),
            None => forall|j: int| 0 <= j < s.len() ==> !#[trigger] p(s[j]),
        },
    decreases s.len(),
{
    if s.len() != 0 && !p(s[0]) {
        lemma_find_first(s.drop_first(), p);
        match find_first(s.drop_first(), p) {
            Some(i) => {
                assert(s.drop_first()[i] == s[i + 1]);
                assert forall|j: int| 0 <= j < i + 1 implies !#[trigger] p(s[j]) by {
                    if j > 0 {
                        assert(s[j] == s.drop_first()[j - 1]);
                    }
                }
            },
            None => {
                assert forall|j: int| 0 <= j < s.len() implies !#[trigger] p(s[j]) by {
                    if j > 0 {
                        assert(s[j] == s.drop_first()[j - 1]);
                    }
                }
            },
        }
    }
}

/// If `k` is an index satisfying `p` and no smaller index does, then
/// `find_first` returns exactly `k`.
pub proof fn lemma_find_first_eq<T>(s: Seq<T>, p: spec_fn(T) -> bool, k: int)
    requires
        0 <= k < s.len(),
        p(s[k]),
        forall|j: int| 0 <= j < k ==> !#[trigger] p(s[j]),
    ensures
        find_first(s, p) == Some(k),
{
    lemma_find_first(s, p);
    match find_first(s, p) {
        Some(i) => {
            if i < k {
                assert(!p(s[i]));
            }
            if k < i {
                assert(!p(s[k]));
            }
        },
        None => {
            assert(!p(s[k]));
        },
    }
}

/// If no element of `s` satisfies `p`, `find_first` returns `None`.
pub proof fn lemma_find_first_none<T>(s: Seq<T>, p: spec_fn(T) -> bool)
    requires
        forall|j: int| 0 <= j < s.len() ==> !#[trigger] p(s[j]),
    ensures
        find_first(s, p) is None,
{
    lemma_find_first(s, p);
    if let Some(i) = find_first(s, p) {
        assert(!p(s[i]));
    }
}

/// Index of the last element of `s` satisfying `p`, if any.
pub open spec fn find_last<T>(s: Seq<T>, p: spec_fn(T) -> bool) -> Option<int>
    decreases s.len(),
{
    if s.len() == 0 {
        None
    } else if p(s.last()) {
        Some(s.len() - 1)
    } else {
        find_last(s.drop_last(), p)
    }
}

/// Two scans agree when their predicates agree pointwise on sequences of the
/// same length.
pub proof fn lemma_find_first_pointwise<A, B>(
    s1: Seq<A>,
    s2: Seq<B>,
    p1: spec_fn(A) -> bool,
    p2: spec_fn(B) -> bool,
)
    requires
        s1.len() == s2.len(),
        forall|j: int| 0 <= j < s1.len() ==> #[trigger] p1(s1[j]) == p2(s2[j]),
    ensures
        find_first(s1, p1) == find_first(s2, p2),
    decreases s1.len(),
{
    if s1.len() != 0 {
        assert(p1(s1[0]) == p2(s2[0]));
        if !p1(s1[0]) {
            assert(forall|j: int|
                0 <= j < s1.len() - 1 ==> #[trigger] p1(s1.drop_first()[j]) == p2(
                    s2.drop_first()[j],
                )) by {
                assert(forall|j: int|
                    0 <= j < s1.len() - 1 ==> s1.drop_first()[j] == s1[j + 1] && s2.drop_first()[j]
                        == s2[j + 1]);
            }
            lemma_find_first_pointwise(s1.drop_first(), s2.drop_first(), p1, p2);
        }
    }
}

} // verus!
