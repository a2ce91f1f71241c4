use vstd::prelude::*;

verus! {

/// `s` without the value `k`; `s` itself where `k` does not occur.
pub open spec fn without(s: Seq<u64>, k: u64) -> Seq<u64> {
    if s.contains(k) {
        s.remove(s.index_of(k))
    } else {
        s
    }
}

/// In a sequence without repetitions, dropping the element at `i` leaves
/// exactly the other elements, still without repetitions.
pub proof fn lemma_without(s: Seq<u64>, i: int)
    requires
        s.no_duplicates(),
        0 <= i < s.len(),
    ensures
        without(s, s[i]) == s.remove(i),
        s.remove(i).no_duplicates(),
        s.remove(i).len() == s.len() - 1,
        forall|x: u64| #[trigger] s.remove(i).contains(x) <==> s.contains(x) && x != s[i],
{
    let r = s.remove(i);
    s.remove_ensures(i);
    assert(s.contains(s[i]));
    assert(s.index_of(s[i]) == i);
    assert forall|x: u64| #[trigger] r.contains(x) <==> s.contains(x) && x != s[i] by {
        if r.contains(x) {
            let j = choose|j: int| 0 <= j < r.len() && r[j] == x;
            if j < i {
                assert(s[j] == x);
            } else {
                assert(s[j + 1] == x);
            }
        }
        if s.contains(x) && x != s[i] {
            let j = choose|j: int| 0 <= j < s.len() && s[j] == x;
            if j < i {
                assert(r[j] == x);
            } else {
                assert(r[j - 1] == x);
            }
        }
    }
}

/// Dropping a value that does not occur changes nothing; dropping one that
/// does leaves the other elements.
pub proof fn lemma_without_contains(s: Seq<u64>, k: u64)
    requires
        s.no_duplicates(),
    ensures
        without(s, k).no_duplicates(),
        forall|x: u64| #[trigger] without(s, k).contains(x) <==> s.contains(x) && x != k,
        without(s, k).len() == if s.contains(k) { s.len() - 1 } else { s.len() as int },
{
    if s.contains(k) {
        lemma_without(s, s.index_of(k));
    }
}

/// Dropping a value from a sequence with one more element.
pub proof fn lemma_without_push(s: Seq<u64>, x: u64, k: u64)
    requires
        s.push(x).no_duplicates(),
    ensures
        without(s.push(x), k) == if x == k {
            s
        } else {
            without(s, k).push(x)
        },
{
    let r = s.push(x);
    assert(s.no_duplicates()) by {
        assert forall|i: int, j: int| 0 <= i < s.len() && 0 <= j < s.len() && i != j implies s[i]
            != s[j] by {
            assert(r[i] != r[j]);
        }
    }
    assert(!s.contains(x)) by {
        if s.contains(x) {
            let i = choose|i: int| 0 <= i < s.len() && s[i] == x;
            assert(r[i] == r[s.len() as int]);
        }
    }
    if x == k {
        assert(r[s.len() as int] == k);
        lemma_without(r, s.len() as int);
        assert(r.remove(s.len() as int) =~= s);
    } else if s.contains(k) {
        let i = s.index_of(k);
        assert(r[i] == k);
        lemma_without(r, i);
        lemma_without(s, i);
        assert(r.remove(i) =~= s.remove(i).push(x));
    } else {
        assert(!r.contains(k)) by {
            if r.contains(k) {
                let i = choose|i: int| 0 <= i < r.len() && r[i] == k;
                if i < s.len() {
                    assert(s[i] == k);
                }
            }
        }
    }
}

/// Which keys are in `keep`.
pub open spec fn within(keep: Set<u64>) -> spec_fn(u64) -> bool {
    |k: u64| keep.contains(k)
}

/// A sequence without repetitions whose elements all occur in another is no
/// longer than the other.
pub proof fn lemma_no_longer(s: Seq<u64>, t: Seq<u64>)
    requires
        s.no_duplicates(),
        forall|k: u64| s.contains(k) ==> t.contains(k),
    ensures
        s.len() <= t.len(),
{
    s.unique_seq_to_set();
    t.lemma_cardinality_of_set();
    vstd::seq_lib::seq_to_set_is_finite(t);
    assert(s.to_set().subset_of(t.to_set()));
    vstd::set_lib::lemma_len_subset(s.to_set(), t.to_set());
}

/// What `push` does to membership and to the absence of repetitions.
pub proof fn lemma_push_facts(s: Seq<u64>, x: u64)
    ensures
        forall|k: u64| #[trigger] s.push(x).contains(k) <==> s.contains(k) || k == x,
        s.no_duplicates() && !s.contains(x) ==> s.push(x).no_duplicates(),
{
    let r = s.push(x);
    assert forall|k: u64| #[trigger] r.contains(k) <==> s.contains(k) || k == x by {
        if r.contains(k) {
            let i = choose|i: int| 0 <= i < r.len() && r[i] == k;
            if i < s.len() {
                assert(s[i] == k);
            }
        }
        if s.contains(k) {
            let i = choose|i: int| 0 <= i < s.len() && s[i] == k;
            assert(r[i] == k);
        }
        assert(r[s.len() as int] == x);
    }
    if s.no_duplicates() && !s.contains(x) {
        assert forall|i: int, j: int|
            0 <= i < r.len() && 0 <= j < r.len() && i != j implies r[i] != r[j] by {
            if i < s.len() && j < s.len() {
            } else if i < s.len() {
                assert(s.contains(s[i]));
            } else {
                assert(s.contains(s[j]));
            }
        }
    }
}

/// What `drop_last` does to membership and to the absence of repetitions.
pub proof fn lemma_drop_last_facts(s: Seq<u64>)
    requires
        s.len() > 0,
        s.no_duplicates(),
    ensures
        forall|k: u64| #[trigger] s.drop_last().contains(k) <==> s.contains(k) && k != s.last(),
        s.drop_last().no_duplicates(),
{
    let r = s.drop_last();
    assert forall|k: u64| #[trigger] r.contains(k) <==> s.contains(k) && k != s.last() by {
        if r.contains(k) {
            let i = choose|i: int| 0 <= i < r.len() && r[i] == k;
            assert(s[i] == k);
        }
        if s.contains(k) && k != s.last() {
            let i = choose|i: int| 0 <= i < s.len() && s[i] == k;
            assert(r[i] == k);
        }
    }
}

/// What is kept of a sequence without repetitions has none, and holds the
/// elements that meet the predicate.
pub proof fn lemma_filter_facts(s: Seq<u64>, p: spec_fn(u64) -> bool)
    requires
        s.no_duplicates(),
    ensures
        s.filter(p).no_duplicates(),
        forall|k: u64| #[trigger] s.filter(p).contains(k) <==> s.contains(k) && p(k),
    decreases s.len(),
{
    reveal(Seq::filter);
    if s.len() > 0 {
        let head = s.drop_last();
        let x = s.last();
        lemma_filter_facts(head, p);
        let f = head.filter(p);
        assert forall|k: u64| s.contains(k) <==> head.contains(k) || k == x by {
            if s.contains(k) {
                let i = choose|i: int| 0 <= i < s.len() && s[i] == k;
                if i < head.len() {
                    assert(head[i] == k);
                }
            }
            if head.contains(k) {
                let i = choose|i: int| 0 <= i < head.len() && head[i] == k;
                assert(s[i] == k);
            }
            assert(s[s.len() - 1] == x);
        }
        assert(!head.contains(x)) by {
            if head.contains(x) {
                let i = choose|i: int| 0 <= i < head.len() && head[i] == x;
                assert(s[i] == s[s.len() - 1]);
            }
        }
        if p(x) {
            let r = f.push(x);
            assert forall|k: u64| #[trigger] r.contains(k) <==> f.contains(k) || k == x by {
                if r.contains(k) {
                    let i = choose|i: int| 0 <= i < r.len() && r[i] == k;
                    if i < f.len() {
                        assert(f[i] == k);
                    }
                }
                if f.contains(k) {
                    let i = choose|i: int| 0 <= i < f.len() && f[i] == k;
                    assert(r[i] == k);
                }
                assert(r[f.len() as int] == x);
            }
            assert(r.no_duplicates()) by {
                assert forall|i: int, j: int|
                    0 <= i < r.len() && 0 <= j < r.len() && i != j implies r[i] != r[j] by {
                    if i < f.len() && j < f.len() {
                    } else if i < f.len() {
                        assert(f.contains(f[i]));
                    } else {
                        assert(f.contains(f[j]));
                    }
                }
            }
        }
    } else {
        assert(forall|k: u64| !s.contains(k));
    }
}

/// How many elements of `s` meet `p`.
pub open spec fn count_if(s: Seq<u64>, p: spec_fn(u64) -> bool) -> nat
    decreases s.len(),
{
    if s.len() == 0 {
        0
    } else {
        count_if(s.drop_last(), p) + if p(s.last()) {
            1nat
        } else {
            0nat
        }
    }
}

/// A count is no more than the length.
pub proof fn lemma_count_bound(s: Seq<u64>, p: spec_fn(u64) -> bool)
    ensures
        count_if(s, p) <= s.len(),
    decreases s.len(),
{
    if s.len() > 0 {
        lemma_count_bound(s.drop_last(), p);
    }
}

/// A count is zero exactly where no element meets the predicate.
pub proof fn lemma_count_zero(s: Seq<u64>, p: spec_fn(u64) -> bool)
    ensures
        count_if(s, p) == 0 <==> forall|i: int| 0 <= i < s.len() ==> !p(#[trigger] s[i]),
    decreases s.len(),
{
    if s.len() > 0 {
        let head = s.drop_last();
        lemma_count_zero(head, p);
        if count_if(s, p) == 0 {
            assert forall|i: int| 0 <= i < s.len() implies !p(#[trigger] s[i]) by {
                if i < head.len() {
                    assert(head[i] == s[i]);
                }
            }
        }
        if forall|i: int| 0 <= i < s.len() ==> !p(#[trigger] s[i]) {
            assert forall|i: int| 0 <= i < head.len() implies !p(#[trigger] head[i]) by {
                assert(head[i] == s[i]);
            }
            assert(!p(s[s.len() - 1]));
        }
    }
}

/// Where `q` is `p` but for one value `k`, which `q` rejects, the counts over
/// a sequence without repetitions differ by one if `k` occurs and meets `p`,
/// and not at all otherwise.
pub proof fn lemma_count_without(
    s: Seq<u64>,
    p: spec_fn(u64) -> bool,
    q: spec_fn(u64) -> bool,
    k: u64,
)
    requires
        s.no_duplicates(),
        forall|x: u64| #[trigger] q(x) == (p(x) && x != k),
    ensures
        count_if(s, p) == count_if(s, q) + if s.contains(k) && p(k) {
            1nat
        } else {
            0nat
        },
    decreases s.len(),
{
    if s.len() > 0 {
        let head = s.drop_last();
        let x = s.last();
        lemma_count_without(head, p, q, k);
        assert(s[s.len() - 1] == x);
        if head.contains(k) {
            let i = choose|i: int| 0 <= i < head.len() && head[i] == k;
            assert(s[i] == k);
            assert(x != k);
        } else if s.contains(k) {
            let i = choose|i: int| 0 <= i < s.len() && s[i] == k;
            if i < head.len() {
                assert(head[i] == k);
            }
            assert(x == k);
        }
    } else {
        assert(!s.contains(k));
    }
}

} // verus!
