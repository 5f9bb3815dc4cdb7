//! The mathematical model of the visitation order.
//!
//! Orderings are described over positions: `order(n)` lists, in the order in
//! which an enumerator over `n` values hands them out, sequences of positions
//! `0..n`. Position `0` is the head of the input; the orderings of a length-`n`
//! input are those of its tail (positions shifted up by one) with the head
//! inserted at each place `0, 1, ..., n - 1` in turn.
use vstd::prelude::*;

verus! {

/// `n!`.
pub open spec fn factorial(n: nat) -> nat
    decreases n,
{
    if n == 0 {
        1
    } else {
        n * factorial((n - 1) as nat)
    }
}

/// Every position of `p` raised by one.
pub open spec fn shift(p: Seq<int>) -> Seq<int> {
    p.map_values(|x: int| x + 1)
}

/// Position `0` inserted at index `j` of `p` shifted up by one.
pub open spec fn insert_head(p: Seq<int>, j: int) -> Seq<int> {
    shift(p).insert(j, 0)
}

/// The orderings of positions `0..n`, in visitation order.
///
/// The empty input has no ordering at all (not the single empty one). For
/// `n >= 2`, entry `k` takes entry `k / n` of the tail's list and puts the
/// head at index `k % n`.
pub open spec fn order(n: nat) -> Seq<Seq<int>>
    decreases n,
{
    if n == 0 {
        Seq::empty()
    } else if n == 1 {
        seq![seq![0int]]
    } else {
        let tail = order((n - 1) as nat);
        Seq::new(tail.len() * n, |k: int| insert_head(tail[k / n as int], k % n as int))
    }
}

/// `p` lists each position `0..n` exactly once.
pub open spec fn is_ordering(p: Seq<int>, n: nat) -> bool {
    &&& p.len() == n
    &&& forall|i: int| 0 <= i < n ==> 0 <= #[trigger] p[i] < n
    &&& p.no_duplicates()
}

/// Entry `k` of `order(n)`, for `n >= 2`, is entry `k / n` of the tail's list
/// with the head put at index `k % n`.
pub proof fn lemma_order_step(n: nat, k: int)
    requires
        n >= 2,
        0 <= k < order(n).len(),
    ensures
        order(n).len() == order((n - 1) as nat).len() * n,
        0 <= k / (n as int) < order((n - 1) as nat).len(),
        order(n)[k] == insert_head(order((n - 1) as nat)[k / (n as int)], k % (n as int)),
{
    let m = order((n - 1) as nat).len();
    assert(k / (n as int) < m) by {
        vstd::arithmetic::div_mod::lemma_div_is_ordered(k, (m * n) as int, (n as int));
        vstd::arithmetic::div_mod::lemma_div_multiples_vanish(m as int, (n as int));
        if k / (n as int) == m as int {
            vstd::arithmetic::div_mod::lemma_fundamental_div_mod(k, (n as int));
            assert(k >= (m * n) as int) by (nonlinear_arith)
                requires k == n * (k / (n as int)) + k % (n as int), k % (n as int) >= 0, k / (n as int) == m;
        }
    }
}

/// Entry `k` of `order(n)` is the one built from entry `q` of the tail's list
/// with the head at index `j`.
pub proof fn lemma_order_at(n: nat, q: int, j: int)
    requires
        n >= 2,
        0 <= q < order((n - 1) as nat).len(),
        0 <= j < n,
    ensures
        0 <= q * n + j < order(n).len(),
        order(n)[q * n + j] == insert_head(order((n - 1) as nat)[q], j),
{
    let m = order((n - 1) as nat).len() as int;
    assert(q * n + j < m * n) by (nonlinear_arith)
        requires 0 <= q < m, 0 <= j < n;
    assert(0 <= q * n + j) by (nonlinear_arith)
        requires 0 <= q, 0 <= j, n >= 2;
    vstd::arithmetic::div_mod::lemma_fundamental_div_mod_converse(q * n + j, (n as int), q, j);
    lemma_order_step(n, q * n + j);
}

/// Every entry of `order(n)` is a sequence of `n` positions, each in `0..n`.
pub proof fn lemma_order_entry(n: nat, k: int)
    requires
        0 <= k < order(n).len(),
    ensures
        order(n)[k].len() == n,
        forall|i: int| 0 <= i < n ==> 0 <= #[trigger] order(n)[k][i] < n,
    decreases n,
{
    if n >= 2 {
        lemma_order_step(n, k);
        let q = k / (n as int);
        lemma_order_entry((n - 1) as nat, q);
        let p = order((n - 1) as nat)[q];
        let j = k % (n as int);
        assert forall|i: int| 0 <= i < n implies 0 <= #[trigger] order(n)[k][i] < n by {
            if i < j {
                assert(order(n)[k][i] == p[i] + 1);
            } else if i > j {
                assert(order(n)[k][i] == p[i - 1] + 1);
            }
        }
    }
}

/// The input of length `n >= 1` has exactly `n!` orderings in the visitation
/// order, and the empty input has none.
pub proof fn lemma_order_count(n: nat)
    ensures
        order(n).len() == if n == 0 { 0 } else { factorial(n) },
    decreases n,
{
    if n >= 2 {
        lemma_order_count((n - 1) as nat);
        assert(order(n).len() == order((n - 1) as nat).len() * n);
        vstd::arithmetic::mul::lemma_mul_is_commutative(factorial((n - 1) as nat) as int, n as int);
    } else if n == 1 {
        assert(factorial(1) == 1 * factorial(0));
    }
}

/// Every entry of the visitation order lists each position exactly once.
pub proof fn lemma_order_entry_is_ordering(n: nat, k: int)
    requires
        0 <= k < order(n).len(),
    ensures
        is_ordering(order(n)[k], n),
    decreases n,
{
    lemma_order_entry(n, k);
    if n >= 2 {
        lemma_order_step(n, k);
        let q = k / (n as int);
        let j = k % (n as int);
        lemma_order_entry_is_ordering((n - 1) as nat, q);
        let p = order((n - 1) as nat)[q];
        let e = order(n)[k];
        assert forall|a: int, b: int| 0 <= a < n && 0 <= b < n && a != b implies e[a] != e[b] by {
            let sa = if a < j { a } else { a - 1 };
            let sb = if b < j { b } else { b - 1 };
            if a != j && b != j {
                assert(e[a] == p[sa] + 1);
                assert(e[b] == p[sb] + 1);
            } else if a == j {
                assert(e[b] == p[sb] + 1);
            } else {
                assert(e[a] == p[sa] + 1);
            }
        }
    }
}

/// No ordering is visited twice.
pub proof fn lemma_order_distinct(n: nat, a: int, b: int)
    requires
        0 <= a < order(n).len(),
        0 <= b < order(n).len(),
        order(n)[a] == order(n)[b],
    ensures
        a == b,
    decreases n,
{
    if n >= 2 {
        let ni = n as int;
        lemma_order_step(n, a);
        lemma_order_step(n, b);
        let (qa, ja) = (a / ni, a % ni);
        let (qb, jb) = (b / ni, b % ni);
        let pa = order((n - 1) as nat)[qa];
        let pb = order((n - 1) as nat)[qb];
        lemma_order_entry((n - 1) as nat, qa);
        lemma_order_entry((n - 1) as nat, qb);
        let e = order(n)[a];
        if ja != jb {
            assert(e[ja] == 0);
            assert(order(n)[b][ja] == 0);
            let s = if ja < jb { ja } else { ja - 1 };
            assert(order(n)[b][ja] == pb[s] + 1);
        }
        assert(pa =~= pb) by {
            assert forall|i: int| 0 <= i < n - 1 implies pa[i] == pb[i] by {
                let t = if i < ja { i } else { i + 1 };
                assert(e[t] == pa[i] + 1);
                assert(order(n)[b][t] == pb[i] + 1);
            }
        }
        lemma_order_distinct((n - 1) as nat, qa, qb);
        vstd::arithmetic::div_mod::lemma_fundamental_div_mod(a, ni);
        vstd::arithmetic::div_mod::lemma_fundamental_div_mod(b, ni);
    }
}

/// Every ordering of a non-empty input is visited.
pub proof fn lemma_order_complete(n: nat, p: Seq<int>)
    requires
        n >= 1,
        is_ordering(p, n),
    ensures
        exists|k: int| 0 <= k < order(n).len() && #[trigger] order(n)[k] == p,
    decreases n,
{
    if n == 1 {
        assert(p =~= seq![0int]);
        assert(order(n)[0] == p);
    } else {
        let ni = n as int;
        let range = vstd::set_lib::set_int_range(0, ni);
        vstd::set_lib::lemma_int_range(0, ni);
        p.unique_seq_to_set();
        assert(p.to_set().subset_of(range));
        vstd::set_lib::lemma_subset_equality(p.to_set(), range);
        assert(range.contains(0));
        let j = choose|j: int| 0 <= j < ni && p[j] == 0;
        let rest = p.remove(j);
        let q = rest.map_values(|x: int| x - 1);
        assert forall|i: int| 0 <= i < n - 1 implies 0 <= #[trigger] q[i] < n - 1 by {
            let t = if i < j { i } else { i + 1 };
            assert(rest[i] == p[t]);
        }
        assert forall|a: int, b: int| 0 <= a < n - 1 && 0 <= b < n - 1 && a != b implies q[a] != q[b] by {
            let ta = if a < j { a } else { a + 1 };
            let tb = if b < j { b } else { b + 1 };
            assert(rest[a] == p[ta]);
            assert(rest[b] == p[tb]);
        }
        assert(is_ordering(q, (n - 1) as nat));
        lemma_order_complete((n - 1) as nat, q);
        let kq = choose|k: int| 0 <= k < order((n - 1) as nat).len() && #[trigger] order((n - 1) as nat)[k] == q;
        lemma_order_at(n, kq, j);
        assert(shift(q) =~= rest);
        assert(insert_head(q, j) =~= p);
        assert(order(n)[kq * ni + j] == p);
    }
}

} // verus!
