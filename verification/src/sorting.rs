//! Sorting numbers.
use std::collections::BTreeSet;
use vstd::prelude::*;
use vstd::std_specs::cmp::OrdSpec;
use vstd::std_specs::iter::IteratorSpec;

verus! {

broadcast use {
    vstd::std_specs::btree::group_btree_axioms,
    vstd::laws_cmp::group_laws_cmp,
    vstd::laws_eq::group_laws_eq,
};

/// The numbers increase.
pub open spec fn increasing(s: Seq<u128>) -> bool {
    forall|i: int, j: int| 0 <= i < j < s.len() ==> s[i] < s[j]
}

proof fn lemma_increasing(s: Seq<&u128>)
    requires
        vstd::std_specs::btree::increasing_seq(s),
    ensures
        forall|i: int, j: int| 0 <= i < j < s.len() ==> *s[i] < *s[j],
{
    assert(vstd::laws_cmp::obeys_cmp::<&u128>());
    assert forall|i: int, j: int| 0 <= i < j < s.len() implies *s[i] < *s[j] by {
        assert(OrdSpec::cmp_spec(&s[i], &s[j]) is Less);
    }
}

/// The numbers of `v`, each once, in increasing order.
pub fn sorted(v: &Vec<u128>) -> (r: Vec<u128>)
    ensures
        increasing(r@),
        r@.to_set() == v@.to_set(),
{
    let mut set: BTreeSet<u128> = BTreeSet::new();
    for i in 0..v.len()
        invariant
            set@ == v@.take(i as int).to_set(),
    {
        let k: u128 = v[i];
        set.insert(k);
        proof {
            let before = v@.take(i as int);
            let after = v@.take(i + 1);
            assert(after =~= before.push(v@[i as int]));
            assert(after.to_set() =~= before.to_set().insert(v@[i as int])) by {
                assert(after[i as int] == v@[i as int]);
                assert forall|x: u128| before.contains(x) implies after.contains(x) by {
                    let n = choose|n: int| 0 <= n < before.len() && before[n] == x;
                    assert(after[n] == x);
                }
            }
        }
    }
    proof {
        assert(v@.take(v@.len() as int) =~= v@);
    }
    let mut r: Vec<u128> = Vec::new();
    proof {
        lemma_increasing(vstd::std_specs::btree::spec_btree_keys_iter(&set).remaining());
    }
    for k in it: set.iter()
        invariant
            r@ == it.seq().unref().take(it.index() as int),
            forall|i: int, j: int| 0 <= i < j < it.seq().len() ==> *it.seq()[i] < *it.seq()[j],
            it.seq().unref().to_set() == set@,
            it.index() == it.seq().len() ==> r@ == it.seq().unref(),
        ensures
            increasing(r@),
            r@.to_set() == set@,
    {
        r.push(*k);
        proof {
            let all = it.seq().unref();
            assert(all[it.index() as int] == *k);
            assert(r@ =~= all.take(it.index() as int + 1));
            assert(it.index() + 1 == all.len() ==> r@ =~= all);
        }
    }
    r
}

} // verus!
