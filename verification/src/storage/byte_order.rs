//! Lexicographic order on byte strings, the order in which an ordered
//! key-value engine walks its keys.

use vstd::prelude::*;

verus! {

/// `a` and `b` hold the same bytes before position `at`, and `a` is the
/// smaller one there: it ends at `at` while `b` goes on, or its byte at `at`
/// is the smaller one.
pub open spec fn splits_below(a: Seq<u8>, b: Seq<u8>, at: int) -> bool {
    &&& 0 <= at <= a.len()
    &&& at < b.len()
    &&& forall|j: int| 0 <= j < at ==> a[j] == b[j]
    &&& at < a.len() ==> a[at] < b[at]
}

/// `a` comes strictly before `b` in byte-wise lexicographic order.
pub open spec fn precedes(a: Seq<u8>, b: Seq<u8>) -> bool {
    exists|at: int| splits_below(a, b, at)
}

/// No byte string comes before itself.
pub proof fn lemma_precedes_irreflexive(a: Seq<u8>)
    ensures
        !precedes(a, a),
{
    assert forall|at: int| !splits_below(a, a, at) by {}
}

/// Of two byte strings at most one comes before the other.
pub proof fn lemma_precedes_asymmetric(a: Seq<u8>, b: Seq<u8>)
    requires
        precedes(a, b),
    ensures
        !precedes(b, a),
{
    let i = choose|at: int| splits_below(a, b, at);
    assert forall|at: int| !splits_below(b, a, at) by {
        if splits_below(b, a, at) {
            if at < i {
                assert(a[at] == b[at]);
            } else if i < at {
                assert(b[i] == a[i]);
            }
        }
    }
}

/// The order is transitive.
pub proof fn lemma_precedes_transitive(a: Seq<u8>, b: Seq<u8>, c: Seq<u8>)
    requires
        precedes(a, b),
        precedes(b, c),
    ensures
        precedes(a, c),
{
    let i = choose|at: int| splits_below(a, b, at);
    let j = choose|at: int| splits_below(b, c, at);
    let k = if i <= j { i } else { j };
    assert(splits_below(a, c, k)) by {
        assert forall|m: int| 0 <= m < k implies a[m] == c[m] by {
            assert(a[m] == b[m]);
            assert(b[m] == c[m]);
        }
        if i < j {
            assert(b[i] == c[i]);
        }
    }
}

/// Two different byte strings are ordered one way or the other.
pub proof fn lemma_precedes_total(a: Seq<u8>, b: Seq<u8>)
    ensures
        a == b || precedes(a, b) || precedes(b, a),
    decreases a.len(),
{
    if a.len() == 0 {
        if b.len() == 0 {
            assert(a =~= b);
        } else {
            assert(splits_below(a, b, 0));
        }
    } else if b.len() == 0 {
        assert(splits_below(b, a, 0));
    } else if a[0] < b[0] {
        assert(splits_below(a, b, 0));
    } else if b[0] < a[0] {
        assert(splits_below(b, a, 0));
    } else {
        let ta = a.drop_first();
        let tb = b.drop_first();
        lemma_precedes_total(ta, tb);
        if ta == tb {
            assert(a =~= seq![a[0]] + ta);
            assert(b =~= seq![b[0]] + tb);
        } else if precedes(ta, tb) {
            let i = choose|at: int| splits_below(ta, tb, at);
            assert(splits_below(a, b, i + 1)) by {
                assert forall|m: int| 0 <= m < i + 1 implies a[m] == b[m] by {
                    if m > 0 {
                        assert(ta[m - 1] == tb[m - 1]);
                    }
                }
            }
        } else {
            let i = choose|at: int| splits_below(tb, ta, at);
            assert(splits_below(b, a, i + 1)) by {
                assert forall|m: int| 0 <= m < i + 1 implies b[m] == a[m] by {
                    if m > 0 {
                        assert(tb[m - 1] == ta[m - 1]);
                    }
                }
            }
        }
    }
}

/// Whether `a` comes strictly before `b` in byte-wise lexicographic order.
pub fn comes_before(a: &[u8], b: &[u8]) -> (r: bool)
    ensures
        r == precedes(a@, b@),
{
    let mut i: usize = 0;
    while i < a.len() && i < b.len()
        invariant
            i <= a.len(),
            i <= b.len(),
            forall|j: int| 0 <= j < i ==> a@[j] == b@[j],
        decreases a.len() - i,
    {
        if a[i] != b[i] {
            let smaller = a[i] < b[i];
            proof {
                if smaller {
                    assert(splits_below(a@, b@, i as int));
                } else {
                    assert(splits_below(b@, a@, i as int));
                    lemma_precedes_asymmetric(b@, a@);
                }
            }
            return smaller;
        }
        i += 1;
    }
    proof {
        if i < b.len() {
            assert(splits_below(a@, b@, i as int));
        } else {
            assert forall|at: int| !splits_below(a@, b@, at) by {}
        }
    }
    i < b.len()
}

} // verus!
