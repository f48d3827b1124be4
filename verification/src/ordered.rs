//! What the ordered collections of the standard library hold, in order, and
//! dropping some of it.

use std::collections::{BTreeMap, BTreeSet};

use vstd::prelude::*;
use vstd::std_specs::cmp::{OrdSpec, PartialEqSpec, PartialOrdSpec};

verus! {

/// Whether keys are ordered as the ordered collections expect.
pub open spec fn sortable<K: Ord>() -> bool {
    vstd::laws_cmp::obeys_cmp::<K>()
}

/// Whether a key comes before another.
pub open spec fn precedes<K: Ord>(a: K, b: K) -> bool {
    a.cmp_spec(&b) is Less
}

/// Integers are ordered as the ordered collections expect, by their value.
pub proof fn lemma_integers()
    ensures
        sortable::<u16>(),
        sortable::<u32>(),
        sortable::<u64>(),
        sortable::<u128>(),
        forall|a: u16, b: u16| #[trigger] precedes(a, b) <==> a < b,
        forall|a: u32, b: u32| #[trigger] precedes(a, b) <==> a < b,
{
    broadcast use vstd::laws_cmp::group_laws_cmp;

}

/// Whether keys stand in ascending order.
pub open spec fn in_order<K: Ord>(keys: Seq<K>) -> bool {
    forall|i: int, j: int|
        #![trigger keys[i], keys[j]]
        0 <= i < j < keys.len() ==> precedes(keys[i], keys[j])
}

/// References are ordered as what they refer to.
proof fn lemma_references_ordered<K: Ord>()
    requires
        vstd::laws_cmp::obeys_cmp::<K>(),
    ensures
        vstd::laws_cmp::obeys_cmp::<&K>(),
{
    broadcast use {vstd::laws_cmp::group_laws_cmp, vstd::laws_eq::group_laws_eq};

    reveal(vstd::laws_eq::obeys_eq_spec_properties);
    reveal(vstd::laws_cmp::obeys_partial_cmp_spec_properties);
    reveal(vstd::laws_cmp::obeys_cmp_partial_ord);
    reveal(vstd::laws_cmp::obeys_cmp_ord);
    assert(vstd::laws_eq::obeys_eq::<&K>());
}

/// What walking over references to keys in order lists.
proof fn lemma_walked<K: Ord>(walked: Seq<&K>, held: Set<K>)
    requires
        sortable::<K>(),
        walked.unref().to_set() == held,
        vstd::std_specs::btree::increasing_seq(walked),
    ensures
        forall|k: K| #[trigger] walked.unref().contains(k) <==> held.contains(k),
        in_order(walked.unref()),
{
    lemma_references_ordered::<K>();
    let keys = walked.unref();
    assert forall|k: K| #[trigger] keys.contains(k) <==> held.contains(k) by {
        assert(keys.to_set().contains(k) <==> keys.contains(k));
    }
    assert forall|i: int, j: int|
        #![trigger keys[i], keys[j]]
        0 <= i < j < keys.len() implies precedes(keys[i], keys[j]) by {
        assert(OrdSpec::cmp_spec(&walked[i], &walked[j]) is Less);
    }
}

/// The keys of a map, in order.
pub fn keys_in<K: Ord + Copy, V>(m: &BTreeMap<K, V>) -> (r: Vec<K>)
    requires
        sortable::<K>(),
    ensures
        forall|k: K| #[trigger] r@.contains(k) <==> m@.contains_key(k),
        in_order(r@),
{
    let mut out: Vec<K> = Vec::new();
    for k in it: m.keys()
        invariant
            sortable::<K>(),
            it.seq().unref().to_set() == m@.dom(),
            vstd::std_specs::btree::increasing_seq(it.seq()),
            out@ == it.seq().unref().take(it.index()),
            it.index() == it.seq().len() ==> (forall|k: K| #[trigger]
                out@.contains(k) <==> m@.dom().contains(k)) && in_order(out@),
    {
        proof {
            lemma_walked(it.seq(), m@.dom());
        }
        out.push(*k);
        assert(out@ =~= it.seq().unref().take(it.index() + 1));
        assert(it.index() + 1 == it.seq().len() ==> out@ =~= it.seq().unref());
    }
    out
}

/// Drops the entries of a map that `keep` does not keep; gives their keys, in
/// order.
pub fn retain<K: Ord + Copy, V, F: Fn(&K, &V) -> bool>(m: &mut BTreeMap<K, V>, keep: F) -> (r: Vec<
    K,
>)
    requires
        sortable::<K>(),
        forall|k: &K, v: &V| #[trigger] call_requires(keep, (k, v)),
    ensures
        forall|k: K| #[trigger]
            final(m)@.contains_key(k) ==> {
                &&& old(m)@.contains_key(k)
                &&& final(m)@[k] == old(m)@[k]
                &&& call_ensures(keep, (&k, &old(m)@[k]), true)
            },
        forall|k: K| #[trigger]
            old(m)@.contains_key(k) && !final(m)@.contains_key(k) ==> call_ensures(
                keep,
                (&k, &old(m)@[k]),
                false,
            ),
        forall|k: K| #[trigger]
            r@.contains(k) <==> old(m)@.contains_key(k) && !final(m)@.contains_key(k),
        in_order(r@),
{
    let keys: Vec<K> = keys_in(m);
    let mut out: Vec<K> = Vec::new();
    let mut i: usize = 0;
    let ghost before = m@;
    assert forall|j: int| 0 <= j < keys@.len() implies m@.contains_key(#[trigger] keys@[j]) by {
        assert(keys@.contains(keys@[j]));
    }
    while i < keys.len()
        invariant
            i <= keys.len(),
            sortable::<K>(),
            forall|k: &K, v: &V| #[trigger] call_requires(keep, (k, v)),
            before == old(m)@,
            forall|k: K| #[trigger] keys@.contains(k) <==> before.contains_key(k),
            in_order(keys@),
            forall|k: K| #[trigger]
                m@.contains_key(k) ==> before.contains_key(k) && m@[k] == before[k],
            forall|j: int| i <= j < keys@.len() ==> m@.contains_key(#[trigger] keys@[j]),
            forall|j: int|
                0 <= j < i && m@.contains_key(#[trigger] keys@[j]) ==> call_ensures(
                    keep,
                    (&keys@[j], &before[keys@[j]]),
                    true,
                ),
            forall|k: K| #[trigger]
                before.contains_key(k) && !m@.contains_key(k) ==> call_ensures(
                    keep,
                    (&k, &before[k]),
                    false,
                ),
            forall|k: K| #[trigger]
                out@.contains(k) <==> before.contains_key(k) && !m@.contains_key(k),
            in_order(out@),
            forall|a: int, b: int|
                #![trigger out@[a], keys@[b]]
                0 <= a < out@.len() && i <= b < keys@.len() ==> precedes(out@[a], keys@[b]),
        decreases keys.len() - i,
    {
        let key: K = keys[i];
        let ghost here = m@;
        let ghost listed = out@;
        assert(here.contains_key(keys@[i as int]));
        let stays: bool = match m.get(&key) {
            Some(value) => keep(&key, value),
            None => true,
        };
        proof {
            assert forall|j: int| 0 <= j < keys@.len() && j != i implies #[trigger] keys@[j]
                != key by {
                lemma_distinct(keys@, i as int, j);
            }
        }
        if !stays {
            m.remove(&key);
            out.push(key);
            proof {
                assert(m@ == here.remove(key));
                assert forall|k: K| #[trigger]
                    out@.contains(k) <==> before.contains_key(k) && !m@.contains_key(k) by {
                    if listed.contains(k) {
                        let a = choose|a: int| 0 <= a < listed.len() && listed[a] == k;
                        assert(out@[a] == k);
                    }
                    if k == key {
                        assert(out@[listed.len() as int] == k);
                    }
                    if out@.contains(k) && k != key {
                        let a = choose|a: int| 0 <= a < out@.len() && out@[a] == k;
                        assert(listed[a] == k);
                    }
                }
                assert forall|a: int, b: int| 0 <= a < b < out@.len() implies precedes(out@[a], out@[b]) by {
                    assert(out@[a] == listed[a]);
                    if b < listed.len() {
                        assert(out@[b] == listed[b]);
                    } else {
                        assert(out@[b] == keys@[i as int]);
                    }
                }
                assert forall|a: int, b: int|
                    0 <= a < out@.len() && i + 1 <= b < keys@.len() implies precedes(out@[a], keys@[b]) by {
                    if a < listed.len() {
                        assert(out@[a] == listed[a]);
                    } else {
                        assert(out@[a] == keys@[i as int]);
                    }
                }
            }
        }
        i = i + 1;
    }
    proof {
        assert forall|k: K| #[trigger] m@.contains_key(k) implies call_ensures(
            keep,
            (&k, &before[k]),
            true,
        ) by {
            assert(keys@.contains(k));
            let j = choose|j: int| 0 <= j < keys@.len() && keys@[j] == k;
            assert(m@.contains_key(keys@[j]));
        }
    }
    out
}

/// The members of a set, in order.
fn members_in<K: Ord + Copy>(s: &BTreeSet<K>) -> (r: Vec<K>)
    requires
        sortable::<K>(),
    ensures
        forall|k: K| #[trigger] r@.contains(k) <==> s@.contains(k),
{
    let mut out: Vec<K> = Vec::new();
    for k in it: s.iter()
        invariant
            sortable::<K>(),
            it.seq().unref().to_set() == s@,
            vstd::std_specs::btree::increasing_seq(it.seq()),
            out@ == it.seq().unref().take(it.index()),
            it.index() == it.seq().len() ==> forall|k: K| #[trigger]
                out@.contains(k) <==> s@.contains(k),
    {
        proof {
            lemma_walked(it.seq(), s@);
        }
        out.push(*k);
        assert(out@ =~= it.seq().unref().take(it.index() + 1));
        assert(it.index() + 1 == it.seq().len() ==> out@ =~= it.seq().unref());
    }
    out
}

/// Drops the members of a set that `keep` does not keep.
pub fn retain_members<K: Ord + Copy, F: Fn(&K) -> bool>(s: &mut BTreeSet<K>, keep: F)
    requires
        sortable::<K>(),
        forall|k: &K| #[trigger] call_requires(keep, (k,)),
    ensures
        forall|k: K| #[trigger]
            final(s)@.contains(k) ==> old(s)@.contains(k) && call_ensures(keep, (&k,), true),
        forall|k: K| #[trigger]
            old(s)@.contains(k) && !final(s)@.contains(k) ==> call_ensures(keep, (&k,), false),
{
    let all: Vec<K> = members_in(s);
    let mut kept: BTreeSet<K> = BTreeSet::new();
    let mut i: usize = 0;
    while i < all.len()
        invariant
            i <= all.len(),
            sortable::<K>(),
            forall|k: &K| #[trigger] call_requires(keep, (k,)),
            forall|k: K| #[trigger] all@.contains(k) <==> s@.contains(k),
            forall|k: K| #[trigger]
                kept@.contains(k) ==> s@.contains(k) && call_ensures(keep, (&k,), true),
            forall|j: int|
                0 <= j < i && !kept@.contains(#[trigger] all@[j]) ==> call_ensures(
                    keep,
                    (&all@[j],),
                    false,
                ),
        decreases all.len() - i,
    {
        let k: K = all[i];
        assert(all@.contains(k));
        if keep(&k) {
            kept.insert(k);
        }
        i = i + 1;
    }
    proof {
        assert forall|k: K| #[trigger] s@.contains(k) && !kept@.contains(k) implies call_ensures(
            keep,
            (&k,),
            false,
        ) by {
            assert(all@.contains(k));
            let j = choose|j: int| 0 <= j < all@.len() && all@[j] == k;
            assert(!kept@.contains(all@[j]));
        }
    }
    *s = kept;
}

/// Keys in order are distinct.
proof fn lemma_distinct<K: Ord>(keys: Seq<K>, i: int, j: int)
    requires
        sortable::<K>(),
        in_order(keys),
        0 <= i < keys.len(),
        0 <= j < keys.len(),
        i != j,
    ensures
        keys[i] != keys[j],
{
    reveal(vstd::laws_eq::obeys_eq_spec_properties);
    reveal(vstd::laws_cmp::obeys_partial_cmp_spec_properties);
    reveal(vstd::laws_cmp::obeys_cmp_partial_ord);
    reveal(vstd::laws_cmp::obeys_cmp_ord);
    if keys[i] == keys[j] {
        let k = keys[i];
        assert(precedes(k, k));
        assert(k.eq_spec(&k));
        assert(k.partial_cmp_spec(&k) == Some(k.cmp_spec(&k)));
    }
}

} // verus!
