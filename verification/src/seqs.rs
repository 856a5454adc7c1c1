//! Order predicates on handle sequences, and the facts the traversal needs
//! about sorted, duplicate-free sequences.

use vstd::prelude::*;

verus! {

/// The sequence is sorted in non-decreasing order.
pub open spec fn sorted_le(s: Seq<u64>) -> bool {
    forall|i: int, j: int| 0 <= i < j < s.len() ==> s[i] <= s[j]
}

/// The sequence is sorted in strictly increasing order, so it also holds no
/// duplicates.
pub open spec fn strictly_sorted(s: Seq<u64>) -> bool {
    forall|i: int, j: int| 0 <= i < j < s.len() ==> s[i] < s[j]
}

/// In a nonempty strictly sorted sequence, the tail holds exactly the
/// elements greater than the head.
proof fn lemma_tail_contains(a: Seq<u64>, x: u64)
    requires
        strictly_sorted(a),
        a.len() > 0,
    ensures
        a.drop_first().contains(x) <==> (a.contains(x) && x > a[0]),
{
    if a.drop_first().contains(x) {
        let i = choose|i: int| 0 <= i < a.drop_first().len() && a.drop_first()[i] == x;
        assert(a[i + 1] == x);
        assert(a[0] < a[i + 1]);
    }
    if a.contains(x) && x > a[0] {
        let j = choose|j: int| 0 <= j < a.len() && a[j] == x;
        assert(j != 0);
        assert(a.drop_first()[j - 1] == x);
    }
}

/// Pushing an element onto a sequence adds exactly that element.
pub proof fn lemma_push_contains(s: Seq<u64>, v: u64, x: u64)
    ensures
        s.push(v).contains(x) <==> (s.contains(x) || x == v),
{
    if s.push(v).contains(x) {
        let k = choose|k: int| 0 <= k < s.push(v).len() && s.push(v)[k] == x;
        if k < s.len() {
            assert(s[k] == x);
        }
    }
    if s.contains(x) {
        let k = choose|k: int| 0 <= k < s.len() && s[k] == x;
        assert(s.push(v)[k] == x);
    }
    assert(s.push(v)[s.len() as int] == v);
}

/// Two strictly sorted sequences with the same elements are the same
/// sequence: a set of handles has exactly one sorted, duplicate-free layout.
pub proof fn lemma_strictly_sorted_unique(a: Seq<u64>, b: Seq<u64>)
    requires
        strictly_sorted(a),
        strictly_sorted(b),
        forall|x: u64| a.contains(x) <==> b.contains(x),
    ensures
        a == b,
    decreases a.len(),
{
    if a.len() == 0 {
        if b.len() > 0 {
            assert(b.contains(b[0]));
            assert(a.contains(b[0]));
        }
        assert(a =~= b);
    } else {
        assert(a.contains(a[0]));
        assert(b.contains(a[0]));
        assert(b.len() > 0);
        assert(b.contains(b[0]));
        assert(a.contains(b[0]));
        let ia = choose|i: int| 0 <= i < a.len() && a[i] == b[0];
        let ib = choose|i: int| 0 <= i < b.len() && b[i] == a[0];
        assert(a[0] <= a[ia]);
        assert(b[0] <= b[ib]);
        assert(a[0] == b[0]);
        let at = a.drop_first();
        let bt = b.drop_first();
        assert(strictly_sorted(at)) by {
            assert(forall|i: int, j: int|
                0 <= i < j < at.len() ==> at[i] == a[i + 1] && at[j] == a[j + 1]);
        }
        assert(strictly_sorted(bt)) by {
            assert(forall|i: int, j: int|
                0 <= i < j < bt.len() ==> bt[i] == b[i + 1] && bt[j] == b[j + 1]);
        }
        assert forall|x: u64| at.contains(x) <==> bt.contains(x) by {
            lemma_tail_contains(a, x);
            lemma_tail_contains(b, x);
        }
        lemma_strictly_sorted_unique(at, bt);
        assert forall|k: int| 0 <= k < a.len() implies a[k] == b[k] by {
            if k > 0 {
                assert(a[k] == at[k - 1]);
                assert(b[k] == bt[k - 1]);
            }
        }
        assert(a =~= b);
    }
}

/// Copies a vector of handles element by element.
pub fn copy_vec(v: &Vec<u64>) -> (r: Vec<u64>)
    ensures
        r@ == v@,
{
    let mut r: Vec<u64> = Vec::new();
    let mut i: usize = 0;
    while i < v.len()
        invariant
            i <= v@.len(),
            r@ == v@.take(i as int),
        decreases v@.len() - i,
    {
        r.push(v[i]);
        assert(r@ =~= v@.take(i + 1));
        i += 1;
    }
    assert(r@ =~= v@);
    r
}

/// Removes duplicates from a sorted vector, leaving the same elements in
/// strictly increasing order.
pub fn dedup_sorted(v: &Vec<u64>) -> (r: Vec<u64>)
    requires
        sorted_le(v@),
    ensures
        strictly_sorted(r@),
        forall|x: u64| r@.contains(x) <==> v@.contains(x),
{
    let mut r: Vec<u64> = Vec::new();
    let mut i: usize = 0;
    while i < v.len()
        invariant
            i <= v@.len(),
            sorted_le(v@),
            strictly_sorted(r@),
            i == 0 ==> r@.len() == 0,
            i > 0 ==> r@.len() > 0 && r@.last() == v@[i - 1],
            forall|x: u64| r@.contains(x) <==> v@.take(i as int).contains(x),
        decreases v@.len() - i,
    {
        let ghost prefix = v@.take(i as int);
        assert(v@.take(i + 1) =~= prefix.push(v@[i as int]));
        assert forall|x: u64|
            v@.take(i + 1).contains(x) <==> (prefix.contains(x) || x == v@[i as int]) by {
            lemma_push_contains(prefix, v@[i as int], x);
        }
        if r.len() == 0 || r[r.len() - 1] < v[i] {
            let ghost old_r = r@;
            r.push(v[i]);
            assert(forall|k: int| 0 <= k < r@.len() - 1 ==> r@[k] <= r@.last());
            assert forall|x: u64| r@.contains(x) <==> v@.take(i + 1).contains(x) by {
                lemma_push_contains(old_r, v@[i as int], x);
                lemma_push_contains(prefix, v@[i as int], x);
                assert(r@ == old_r.push(v@[i as int]));
                assert(v@.take(i + 1) == prefix.push(v@[i as int]));
            }
        } else {
            assert(r@.last() <= v@[i as int]);
            assert(r@.contains(v@[i as int])) by {
                assert(r@[r@.len() - 1] == v@[i as int]);
            }
            assert(forall|x: u64| r@.contains(x) <==> v@.take(i + 1).contains(x));
        }
        i += 1;
    }
    assert(v@.take(v@.len() as int) =~= v@);
    r
}

} // verus!
