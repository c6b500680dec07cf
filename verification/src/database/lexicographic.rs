//! The order of the key space: byte strings compared lexicographically.

use vstd::prelude::*;

verus! {

/// `a` and `b` agree on their first `k` bytes, and there `a` ends while `b`
/// goes on, or `a` holds the smaller byte.
pub open spec fn precedes_at(a: Seq<u8>, b: Seq<u8>, k: int) -> bool {
    &&& 0 <= k <= a.len()
    &&& k < b.len()
    &&& forall|i: int| 0 <= i < k ==> a[i] == b[i]
    &&& k < a.len() ==> a[k] < b[k]
}

/// `a` comes strictly before `b` in lexicographic order.
pub open spec fn precedes(a: Seq<u8>, b: Seq<u8>) -> bool {
    exists|k: int| precedes_at(a, b, k)
}

/// The order is strict: nothing precedes itself, and no two byte strings
/// precede each other.
pub proof fn lemma_precedes_strict(a: Seq<u8>, b: Seq<u8>)
    ensures
        !precedes(a, a),
        !(precedes(a, b) && precedes(b, a)),
{
    if precedes(a, a) {
        let k = choose|k: int| precedes_at(a, a, k);
        assert(false);
    }
    if precedes(a, b) && precedes(b, a) {
        let k = choose|k: int| precedes_at(a, b, k);
        let l = choose|l: int| precedes_at(b, a, l);
        if k < l {
            assert(b[k] == a[k]);
        } else if l < k {
            assert(a[l] == b[l]);
        }
        assert(false);
    }
}

/// The order is transitive.
pub proof fn lemma_precedes_transitive(a: Seq<u8>, b: Seq<u8>, c: Seq<u8>)
    requires
        precedes(a, b),
        precedes(b, c),
    ensures
        precedes(a, c),
{
    let k = choose|k: int| precedes_at(a, b, k);
    let l = choose|l: int| precedes_at(b, c, l);
    let m = if k <= l {
        k
    } else {
        l
    };
    assert forall|i: int| 0 <= i < m implies a[i] == c[i] by {
        assert(a[i] == b[i]);
        assert(b[i] == c[i]);
    }
    if l < k {
        assert(a[l] == b[l]);
    }
    assert(precedes_at(a, c, m));
}

/// The order is total: of two different byte strings one precedes the other.
pub proof fn lemma_precedes_total(a: Seq<u8>, b: Seq<u8>)
    ensures
        a == b || precedes(a, b) || precedes(b, a),
    decreases a.len(),
{
    if a.len() == 0 {
        if b.len() == 0 {
            assert(a =~= b);
        } else {
            assert(precedes_at(a, b, 0));
        }
    } else if b.len() == 0 {
        assert(precedes_at(b, a, 0));
    } else if a[0] < b[0] {
        assert(precedes_at(a, b, 0));
    } else if b[0] < a[0] {
        assert(precedes_at(b, a, 0));
    } else {
        let ta = a.drop_first();
        let tb = b.drop_first();
        lemma_precedes_total(ta, tb);
        if ta == tb {
            assert(a =~= seq![a[0]] + ta);
            assert(b =~= seq![b[0]] + tb);
        } else if precedes(ta, tb) {
            let k = choose|k: int| precedes_at(ta, tb, k);
            assert forall|i: int| 0 <= i < k + 1 implies a[i] == b[i] by {
                if i > 0 {
                    assert(ta[i - 1] == tb[i - 1]);
                }
            }
            if k < ta.len() {
                assert(ta[k] < tb[k]);
            }
            assert(precedes_at(a, b, k + 1));
        } else {
            let k = choose|k: int| precedes_at(tb, ta, k);
            assert forall|i: int| 0 <= i < k + 1 implies b[i] == a[i] by {
                if i > 0 {
                    assert(tb[i - 1] == ta[i - 1]);
                }
            }
            if k < tb.len() {
                assert(tb[k] < ta[k]);
            }
            assert(precedes_at(b, a, k + 1));
        }
    }
}

/// A byte string precedes each of its proper extensions.
pub proof fn lemma_prefix_precedes(a: Seq<u8>, rest: Seq<u8>)
    requires
        rest.len() > 0,
    ensures
        precedes(a, a + rest),
{
    assert(precedes_at(a, a + rest, a.len() as int));
}

/// The order of two byte strings is the order of what follows a common start.
pub proof fn lemma_precedes_after_common_start(start: Seq<u8>, a: Seq<u8>, b: Seq<u8>)
    ensures
        precedes(start + a, start + b) == precedes(a, b),
{
    let n = start.len() as int;
    if precedes(a, b) {
        let k = choose|k: int| precedes_at(a, b, k);
        assert forall|i: int| 0 <= i < n + k implies (start + a)[i] == (start + b)[i] by {
            if i >= n {
                assert(a[i - n] == b[i - n]);
            }
        }
        if k < a.len() {
            assert(a[k] < b[k]);
        }
        assert(precedes_at(start + a, start + b, n + k));
    }
    if precedes(start + a, start + b) {
        let k = choose|k: int| precedes_at(start + a, start + b, k);
        if k < n {
            assert((start + a)[k] == start[k] && (start + b)[k] == start[k]);
            assert(false);
        }
        assert forall|i: int| 0 <= i < k - n implies a[i] == b[i] by {
            assert((start + a)[i + n] == (start + b)[i + n]);
        }
        if k - n < a.len() {
            assert((start + a)[k] < (start + b)[k]);
        }
        assert(precedes_at(a, b, k - n));
    }
}

/// Two byte strings of one length keep their order whatever is appended to each.
pub proof fn lemma_precedes_before_any_end(a: Seq<u8>, b: Seq<u8>, end_a: Seq<u8>, end_b: Seq<u8>)
    requires
        a.len() == b.len(),
        precedes(a, b),
    ensures
        precedes(a + end_a, b + end_b),
{
    let k = choose|k: int| precedes_at(a, b, k);
    assert forall|i: int| 0 <= i < k implies (a + end_a)[i] == (b + end_b)[i] by {
        assert(a[i] == b[i]);
    }
    assert(a[k] < b[k]);
    assert(precedes_at(a + end_a, b + end_b, k));
}

/// Whether `a` comes strictly before `b`.
pub fn lex_less(a: &[u8], b: &[u8]) -> (less: bool)
    ensures
        less == precedes(a@, b@),
{
    let mut i: usize = 0;
    while i < a.len() && i < b.len()
        invariant
            i <= a.len(),
            i <= b.len(),
            forall|j: int| 0 <= j < i ==> a@[j] == b@[j],
        decreases a.len() - i,
    {
        if a[i] != b[i] {
            if a[i] < b[i] {
                assert(precedes_at(a@, b@, i as int));
                return true;
            }
            assert forall|k: int| !precedes_at(a@, b@, k) by {
                if precedes_at(a@, b@, k) {
                    if k > i {
                        assert(a@[i as int] == b@[i as int]);
                    }
                }
            }
            return false;
        }
        i += 1;
    }
    if i < b.len() {
        assert(precedes_at(a@, b@, i as int));
        true
    } else {
        assert forall|k: int| !precedes_at(a@, b@, k) by {
            if precedes_at(a@, b@, k) {
                assert(a@[k] == b@[k]);
            }
        }
        false
    }
}

/// Whether `a` and `b` hold the same bytes.
pub fn same_bytes(a: &[u8], b: &[u8]) -> (same: bool)
    ensures
        same == (a@ == b@),
{
    if a.len() != b.len() {
        return false;
    }
    let mut i: usize = 0;
    while i < a.len()
        invariant
            i <= a.len() == b.len(),
            forall|j: int| 0 <= j < i ==> a@[j] == b@[j],
        decreases a.len() - i,
    {
        if a[i] != b[i] {
            return false;
        }
        i += 1;
    }
    assert(a@ =~= b@);
    true
}

} // verus!
