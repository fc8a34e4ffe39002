//! The order of byte strings: byte by byte, as in a dictionary.

use vstd::prelude::*;

verus! {

/// `n` is the length of the longest prefix that `a` and `b` have in common.
pub open spec fn is_common_prefix_len(a: Seq<u8>, b: Seq<u8>, n: int) -> bool {
    &&& 0 <= n <= a.len()
    &&& n <= b.len()
    &&& a.take(n) == b.take(n)
    &&& n < a.len() && n < b.len() ==> a[n] != b[n]
}

/// `a` comes before `b`: after a common prefix either `a` ends and `b` goes
/// on, or `a` has the smaller byte.
pub open spec fn precedes(a: Seq<u8>, b: Seq<u8>) -> bool {
    exists|n: int|
        0 <= n <= a.len() && n < b.len() && #[trigger] a.take(n) == b.take(n) && (n < a.len()
            ==> a[n] < b[n])
}

/// Where the longest common prefix ends decides the order.
pub proof fn lemma_order_at_common_prefix(a: Seq<u8>, b: Seq<u8>, n: usize)
    requires
        is_common_prefix_len(a, b, n as int),
    ensures
        a == b <==> n == a.len() && n == b.len(),
        precedes(a, b) <==> n < b.len() && (n < a.len() ==> a[n as int] < b[n as int]),
        precedes(b, a) <==> n < a.len() && (n < b.len() ==> b[n as int] < a[n as int]),
{
    if n == a.len() && n == b.len() {
        assert(a.take(n as int) =~= a);
        assert(b.take(n as int) =~= b);
    }
    lemma_precedes_at(a, b, n as int);
    assert(b.take(n as int) == a.take(n as int));
    lemma_precedes_at(b, a, n as int);
}

proof fn lemma_precedes_at(a: Seq<u8>, b: Seq<u8>, n: int)
    requires
        is_common_prefix_len(a, b, n),
    ensures
        precedes(a, b) <==> n < b.len() && (n < a.len() ==> a[n] < b[n]),
{
    if precedes(a, b) {
        let m = choose|m: int|
            0 <= m <= a.len() && m < b.len() && #[trigger] a.take(m) == b.take(m) && (m < a.len()
                ==> a[m] < b[m]);
        if m < n {
            assert(a.take(n)[m] == b.take(n)[m]);
        }
        if m > n {
            assert(a.take(m)[n] == b.take(m)[n]);
        }
        assert(m == n);
    }
}

/// Of two byte strings that differ, exactly one comes before the other; a
/// byte string does not come before itself.
pub proof fn law_order_is_total(a: Seq<u8>, b: Seq<u8>)
    ensures
        a == b ==> !precedes(a, b) && !precedes(b, a),
        a != b ==> (precedes(a, b) <==> !precedes(b, a)),
{
    let n = common_prefix_len_of(a, b, 0);
    assert(a.take(0) =~= b.take(0));
    lemma_common_prefix_len_of(a, b, 0);
    if n == a.len() && n == b.len() {
        assert(a.take(n) =~= a);
        assert(b.take(n) =~= b);
    }
    lemma_precedes_at(a, b, n);
    lemma_precedes_at(b, a, n);
}

/// Of three byte strings in a row, the first comes before the last.
pub proof fn law_order_is_transitive(a: Seq<u8>, b: Seq<u8>, c: Seq<u8>)
    requires
        precedes(a, b),
        precedes(b, c),
    ensures
        precedes(a, c),
{
    let i = choose|n: int|
        0 <= n <= a.len() && n < b.len() && #[trigger] a.take(n) == b.take(n) && (n < a.len()
            ==> a[n] < b[n]);
    let j = choose|n: int|
        0 <= n <= b.len() && n < c.len() && #[trigger] b.take(n) == c.take(n) && (n < b.len()
            ==> b[n] < c[n]);
    let n = if i <= j {
        i
    } else {
        j
    };
    assert forall|t: int| 0 <= t < n implies a[t] == c[t] by {
        assert(a.take(i)[t] == b.take(i)[t]);
        assert(b.take(j)[t] == c.take(j)[t]);
    }
    assert(a.take(n) =~= c.take(n));
    if n < a.len() {
        if i < j {
            assert(b.take(j)[i] == c.take(j)[i]);
        } else if j < i {
            assert(a.take(i)[j] == b.take(i)[j]);
        }
    }
}

/// The length of the longest common prefix of `a` and `b`, found from `from`
/// on.
spec fn common_prefix_len_of(a: Seq<u8>, b: Seq<u8>, from: int) -> int
    decreases a.len() - from,
{
    if 0 <= from < a.len() && from < b.len() && a[from] == b[from] {
        common_prefix_len_of(a, b, from + 1)
    } else {
        from
    }
}

proof fn lemma_common_prefix_len_of(a: Seq<u8>, b: Seq<u8>, from: int)
    requires
        0 <= from <= a.len(),
        from <= b.len(),
        a.take(from) == b.take(from),
    ensures
        is_common_prefix_len(a, b, common_prefix_len_of(a, b, from)),
    decreases a.len() - from,
{
    if from < a.len() && from < b.len() && a[from] == b[from] {
        assert(a.take(from + 1) =~= a.take(from).push(a[from]));
        assert(b.take(from + 1) =~= b.take(from).push(b[from]));
        lemma_common_prefix_len_of(a, b, from + 1);
    }
}

/// The length of the longest prefix that `a` and `b` have in common.
pub fn common_prefix_len(a: &[u8], b: &[u8]) -> (n: usize)
    ensures
        is_common_prefix_len(a@, b@, n as int),
{
    let mut n: usize = 0;
    proof {
        assert(a@.take(0) =~= b@.take(0));
    }
    while n < a.len() && n < b.len() && a[n] == b[n]
        invariant
            n <= a.len(),
            n <= b.len(),
            a@.take(n as int) == b@.take(n as int),
        decreases a.len() - n,
    {
        proof {
            assert(a@.take(n + 1) =~= a@.take(n as int).push(a@[n as int]));
            assert(b@.take(n + 1) =~= b@.take(n as int).push(b@[n as int]));
        }
        n += 1;
    }
    n
}

} // verus!
