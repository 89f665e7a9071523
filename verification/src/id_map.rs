use vstd::prelude::*;
use std::collections::HashMap;
use vstd::std_specs::iter::IteratorSpec;

verus! {

broadcast use vstd::std_specs::hash::group_hash_axioms;

/// Every id of `m` is below `bound`: ids handed out from `bound` on are not in `m`.
pub open spec fn ids_below<C>(m: Map<usize, C>, bound: int) -> bool {
    forall|id: usize| #[trigger] m.contains_key(id) ==> id < bound
}

/// The ids of `m`, each once.
pub fn key_list<C>(m: &HashMap<usize, C>) -> (keys: Vec<usize>)
    ensures
        keys@.to_set() == m@.dom(),
        keys@.no_duplicates(),
{
    let mut keys: Vec<usize> = Vec::new();
    let ghost all = vstd::std_specs::hash::spec_keys_iter(m).remaining();
    for k in it: m.keys()
        invariant
            it.seq() == all,
            keys.len() == it.index(),
            forall|i: int| 0 <= i < keys.len() ==> keys@[i] == *all[i],
    {
        keys.push(*k);
    }
    assert(keys@ =~= all.unref());
    keys
}

/// Moves every entry of `src` into `dst`; an entry of `src` replaces the one
/// of `dst` under the same id.
pub fn move_all<C>(dst: &mut HashMap<usize, C>, src: HashMap<usize, C>)
    ensures
        final(dst)@ == old(dst)@.union_prefer_right(src@),
{
    let keys = key_list(&src);
    let mut src = src;
    let ghost src0 = src@;
    let ghost dst0 = dst@;
    let mut j: usize = 0;
    proof {
        assert(keys@.subrange(0, 0).to_set() =~= Set::<usize>::empty());
        assert(src0.remove_keys(Set::<usize>::empty()) =~= src0);
        assert(dst0.union_prefer_right(src0.restrict(Set::<usize>::empty())) =~= dst0);
    }
    while j < keys.len()
        invariant
            j <= keys.len(),
            keys@.to_set() == src0.dom(),
            keys@.no_duplicates(),
            src@ == src0.remove_keys(keys@.subrange(0, j as int).to_set()),
            dst@ == dst0.union_prefer_right(src0.restrict(keys@.subrange(0, j as int).to_set())),
        decreases keys.len() - j,
    {
        let k = keys[j];
        let ghost done = keys@.subrange(0, j as int).to_set();
        proof {
            assert(keys@.contains(k));
            assert(keys@.to_set().contains(k));
            if done.contains(k) {
                let i = choose|i: int| 0 <= i < j && #[trigger] keys@.subrange(0, j as int)[i] == k;
                assert(keys@[i] == keys@[j as int]);
            }
            assert(keys@.subrange(0, j + 1 as int).to_set() =~= done.insert(k)) by {
                assert forall|x: usize| #[trigger] done.insert(k).contains(x) implies keys@.subrange(
                    0,
                    j + 1 as int,
                ).to_set().contains(x) by {
                    if x == k {
                        assert(keys@.subrange(0, j + 1 as int)[j as int] == k);
                    } else {
                        let i = choose|i: int| 0 <= i < j && #[trigger] keys@.subrange(0, j as int)[i] == x;
                        assert(keys@.subrange(0, j + 1 as int)[i] == x);
                    }
                }
                assert forall|x: usize| #[trigger] keys@.subrange(0, j + 1 as int).to_set().contains(
                    x,
                ) implies done.insert(k).contains(x) by {
                    let i = choose|i: int| 0 <= i < j + 1 && #[trigger] keys@.subrange(0, j + 1 as int)[i] == x;
                    if i < j {
                        assert(keys@.subrange(0, j as int)[i] == x);
                    }
                }
            }
        }
        let removed = src.remove(&k);
        match removed {
            Some(v) => {
                dst.insert(k, v);
            },
            None => {},
        }
        proof {
            let done1 = done.insert(k);
            assert(src@ =~= src0.remove_keys(done1));
            assert(dst@ =~= dst0.union_prefer_right(src0.restrict(done1)));
        }
        j = j + 1;
    }
    proof {
        assert(keys@.subrange(0, j as int) =~= keys@);
        assert(src0.restrict(src0.dom()) =~= src0);
    }
}

/// Calls every callback of `callbacks` with `arg`.
pub fn call_all<A, C: Fn(&A)>(callbacks: &HashMap<usize, C>, arg: &A)
    requires
        forall|id: usize| #[trigger] callbacks@.contains_key(id) ==> callbacks@[id].requires((arg,)),
    ensures
        forall|id: usize| #[trigger] callbacks@.contains_key(id) ==> callbacks@[id].ensures((arg,), ()),
{
    let keys = key_list(callbacks);
    let mut j: usize = 0;
    while j < keys.len()
        invariant
            j <= keys.len(),
            keys@.to_set() == callbacks@.dom(),
            forall|id: usize| #[trigger] callbacks@.contains_key(id) ==> callbacks@[id].requires((arg,)),
            forall|i: int| 0 <= i < j ==> callbacks@[#[trigger] keys@[i]].ensures((arg,), ()),
        decreases keys.len() - j,
    {
        let k = keys[j];
        proof {
            assert(keys@.contains(k));
            assert(keys@.to_set().contains(k));
        }
        match callbacks.get(&k) {
            Some(c) => {
                c(arg);
            },
            None => {},
        }
        j = j + 1;
    }
    proof {
        assert forall|id: usize| #[trigger] callbacks@.contains_key(id) implies callbacks@[id].ensures(
            (arg,),
            (),
        ) by {
            assert(keys@.to_set().contains(id));
            let i = choose|i: int| 0 <= i < keys@.len() && #[trigger] keys@[i] == id;
        }
    }
}

/// Storing under an id not handed out yet and removing it again gives back
/// what there was: a subscription that ends leaves no trace.
pub proof fn law_fresh_insert_then_remove<C>(m: Map<usize, C>, id: usize, c: C, bound: int)
    requires
        ids_below(m, bound),
        bound <= id,
    ensures
        !m.contains_key(id),
        m.insert(id, c).remove(id) == m,
{
    assert(m.insert(id, c).remove(id) =~= m);
}

/// Taking the entries out and putting them back, when nothing was added
/// meanwhile, changes nothing.
pub proof fn law_take_restore_round_trip<C>(m: Map<usize, C>)
    ensures
        m.union_prefer_right(Map::<usize, C>::empty()) == m,
{
    assert(m.union_prefer_right(Map::<usize, C>::empty()) =~= m);
}

/// Putting taken entries back keeps those added meanwhile: with ids handed
/// out in increasing order, the taken ones (below `bound`) and the added ones
/// (from `bound` on) are all there, each with its own value.
pub proof fn law_restore_keeps_added<C>(taken: Map<usize, C>, added: Map<usize, C>, bound: int)
    requires
        ids_below(taken, bound),
        forall|id: usize| #[trigger] added.contains_key(id) ==> bound <= id,
    ensures
        forall|id: usize|
            #[trigger] taken.union_prefer_right(added).contains_key(id) <==> taken.contains_key(id)
                || added.contains_key(id),
        forall|id: usize| #[trigger] taken.contains_key(id) ==> taken.union_prefer_right(added)[id] == taken[id],
        forall|id: usize| #[trigger] added.contains_key(id) ==> taken.union_prefer_right(added)[id] == added[id],
{
}

} // verus!
