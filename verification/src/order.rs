//! Ascending sequences of session tags: the order in which a session's states
//! are written.

use std::collections::btree_map::Values;
use std::collections::BTreeMap;
use vstd::prelude::*;
use vstd::std_specs::btree::{increasing_seq, key_obeys_cmp_spec};
use vstd::std_specs::cmp::OrdSpec;
use vstd::std_specs::iter::IteratorSpec;

verus! {

/// Each element is smaller than every later one.
pub open spec fn ascending(s: Seq<u128>) -> bool {
    forall|i: int, j: int| 0 <= i < j < s.len() ==> s[i] < s[j]
}

/// `ks` holds exactly the elements of `s`, smallest first.
pub open spec fn lists(ks: Seq<u128>, s: Set<u128>) -> bool {
    &&& ascending(ks)
    &&& forall|k: u128| s.contains(k) <==> ks.contains(k)
}

/// The elements of a finite set, smallest first.
pub open spec fn sorted_keys(s: Set<u128>) -> Seq<u128> {
    choose|ks: Seq<u128>| lists(ks, s)
}

/// Two ascending sequences with the same elements are the same sequence.
pub proof fn lemma_ascending_unique(a: Seq<u128>, b: Seq<u128>)
    requires
        ascending(a),
        ascending(b),
        forall|k: u128| a.contains(k) <==> b.contains(k),
    ensures
        a == b,
    decreases a.len(),
{
    if a.len() == 0 {
        if b.len() > 0 {
            assert(b.contains(b[0]));
        }
        assert(a =~= b);
    } else {
        assert(a.contains(a.last()));
        assert(b.contains(a.last()));
        assert(b.contains(b.last()));
        assert(a.contains(b.last()));
        assert(a.last() == b.last());
        let a1 = a.drop_last();
        let b1 = b.drop_last();
        assert forall|k: u128| a1.contains(k) <==> b1.contains(k) by {
            if a1.contains(k) {
                let i = choose|i: int| 0 <= i < a1.len() && a1[i] == k;
                assert(a[i] == k);
                assert(a.contains(k));
                let j = choose|j: int| 0 <= j < b.len() && b[j] == k;
                assert(b1[j] == k);
            }
            if b1.contains(k) {
                let i = choose|i: int| 0 <= i < b1.len() && b1[i] == k;
                assert(b[i] == k);
                assert(b.contains(k));
                let j = choose|j: int| 0 <= j < a.len() && a[j] == k;
                assert(a1[j] == k);
            }
        }
        lemma_ascending_unique(a1, b1);
        assert(a =~= a1.push(a.last()));
        assert(b =~= b1.push(b.last()));
    }
}

/// `ks` with `x` put where it belongs.
pub open spec fn insert_sorted(ks: Seq<u128>, x: u128) -> Seq<u128>
    decreases ks.len(),
{
    if ks.len() == 0 || ks.last() < x {
        ks.push(x)
    } else {
        insert_sorted(ks.drop_last(), x).push(ks.last())
    }
}

/// Putting a new element where it belongs keeps the sequence ascending and
/// adds that element alone.
pub proof fn lemma_insert_sorted(ks: Seq<u128>, x: u128)
    requires
        ascending(ks),
        !ks.contains(x),
    ensures
        ascending(insert_sorted(ks, x)),
        insert_sorted(ks, x).len() == ks.len() + 1,
        forall|k: u128| insert_sorted(ks, x).contains(k) <==> (k == x || ks.contains(k)),
        insert_sorted(ks, x).last() == (if ks.len() == 0 || ks.last() < x {
            x
        } else {
            ks.last()
        }),
    decreases ks.len(),
{
    let r = insert_sorted(ks, x);
    if ks.len() == 0 || ks.last() < x {
        assert forall|k: u128| r.contains(k) <==> (k == x || ks.contains(k)) by {
            if r.contains(k) {
                let i = choose|i: int| 0 <= i < r.len() && r[i] == k;
                if i < ks.len() {
                    assert(ks[i] == k);
                }
            }
            if ks.contains(k) {
                let i = choose|i: int| 0 <= i < ks.len() && ks[i] == k;
                assert(r[i] == k);
            }
            if k == x {
                assert(r[ks.len() as int] == k);
            }
        }
    } else {
        let front = ks.drop_last();
        let inner = insert_sorted(front, x);
        assert(ks.contains(ks.last()));
        assert(x < ks.last());
        assert forall|k: u128| front.contains(k) implies ks.contains(k) && k < ks.last() by {
            let i = choose|i: int| 0 <= i < front.len() && front[i] == k;
            assert(ks[i] == k);
        }
        lemma_insert_sorted(front, x);
        assert(inner.last() < ks.last()) by {
            if front.len() > 0 {
                assert(front.contains(front.last()));
            }
        }
        assert forall|i: int, j: int| 0 <= i < j < r.len() implies r[i] < r[j] by {
            if j == inner.len() {
                if i < inner.len() - 1 {
                    assert(inner[i] < inner[inner.len() - 1]);
                }
            }
        }
        assert forall|k: u128| r.contains(k) <==> (k == x || ks.contains(k)) by {
            if r.contains(k) {
                let i = choose|i: int| 0 <= i < r.len() && r[i] == k;
                if i < inner.len() {
                    assert(inner.contains(k));
                }
            }
            if ks.contains(k) {
                let i = choose|i: int| 0 <= i < ks.len() && ks[i] == k;
                if i < front.len() {
                    assert(front[i] == k);
                    assert(front.contains(k));
                    assert(inner.contains(k));
                    let j = choose|j: int| 0 <= j < inner.len() && inner[j] == k;
                    assert(r[j] == k);
                } else {
                    assert(r[inner.len() as int] == k);
                }
            }
            if k == x {
                assert(inner.contains(k));
                let j = choose|j: int| 0 <= j < inner.len() && inner[j] == k;
                assert(r[j] == k);
            }
        }
    }
}

/// A finite set has its elements listed smallest first.
pub proof fn lemma_sorted_keys(s: Set<u128>)
    requires
        s.finite(),
    ensures
        lists(sorted_keys(s), s),
        sorted_keys(s).len() == s.len(),
    decreases s.len(),
{
    if s.len() == 0 {
        let none = Seq::<u128>::empty();
        assert(lists(none, s));
    } else {
        let x = s.choose();
        let fewer = s.remove(x);
        lemma_sorted_keys(fewer);
        let ks = sorted_keys(fewer);
        assert(!ks.contains(x));
        lemma_insert_sorted(ks, x);
        assert(lists(insert_sorted(ks, x), s));
    }
    lemma_lists_len(sorted_keys(s), s);
}

/// A set that is listed has as many elements as the list is long.
pub proof fn lemma_lists_len(ks: Seq<u128>, s: Set<u128>)
    requires
        lists(ks, s),
    ensures
        s.finite(),
        s.len() == ks.len(),
        ks.no_duplicates(),
{
    assert(ks.to_set() =~= s);
    ks.unique_seq_to_set();
}

/// The place of `k` in the list of a set's elements, smallest first.
pub open spec fn rank(s: Set<u128>, k: u128) -> int {
    sorted_keys(s).index_of(k)
}

/// The values of `m` as the map hands them out: in the order of their keys.
pub(crate) fn values_in_order<'a, V>(m: &'a BTreeMap<u128, V>) -> (it: Values<'a, u128, V>)
    ensures
        lists(sorted_keys(m@.dom()), m@.dom()),
        it.remaining() == sorted_keys(m@.dom()).map(|i: int, k: u128| &m@[k]),
        it.obeys_prophetic_iter_laws(),
        it.decrease() is Some,
        it.initial_value_relation(&it),
{
    let it = m.values();
    proof {
        broadcast use vstd::std_specs::btree::group_btree_axioms;
        assert(key_obeys_cmp_spec::<u128>());
        let ks: Seq<u128> = choose|ks: Seq<u128>|
            increasing_seq(ks) && ks.to_set() == m@.dom() && ks.no_duplicates() && IteratorSpec::remaining(&it)
                == ks.map(|i: int, k: u128| &m@[k]);
        assert(increasing_seq(ks));
        assert forall|i: int, j: int| 0 <= i < j < ks.len() implies ks[i] < ks[j] by {
            assert(ks[i].cmp_spec(&ks[j]) is Less);
        }
        assert forall|k: u128| m@.dom().contains(k) <==> ks.contains(k) by {
            assert(ks.to_set().contains(k) <==> ks.contains(k));
        }
        assert(lists(ks, m@.dom()));
        lemma_ascending_unique(ks, sorted_keys(m@.dom()));
    }
    it
}

} // verus!
