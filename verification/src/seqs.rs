//! Small general helpers on vectors and their multiset views that the rest
//! of the library shares.

use vstd::prelude::*;
use vstd::seq_lib::group_to_multiset_ensures;
use vstd::seq_lib::lemma_multiset_commutative;
use vstd::multiset::Multiset;
use vstd::multiset::group_multiset_axioms;

verus! {

broadcast use group_to_multiset_ensures, group_multiset_axioms;

/// Copies a vector of plainly copyable values element by element.
pub fn copy_vec<T: Copy>(v: &Vec<T>) -> (r: Vec<T>)
    ensures
        r@ == v@,
{
    let mut r: Vec<T> = Vec::new();
    let mut i: usize = 0;
    while i < v.len()
        invariant
            i <= v.len(),
            r@ == v@.take(i as int),
        decreases v.len() - i,
    {
        r.push(v[i]);
        proof {
            assert(v@.take(i as int + 1) =~= v@.take(i as int).push(v@[i as int]));
        }
        i += 1;
    }
    proof {
        assert(v@.take(v@.len() as int) =~= v@);
    }
    r
}

/// Removing position `p` by a swap with the last element leaves the multiset
/// of the sequence short exactly one copy of the removed value.
pub proof fn lemma_swap_remove_multiset<A>(s: Seq<A>, p: int)
    requires
        0 <= p < s.len(),
    ensures
        s.update(p, s.last()).drop_last().to_multiset()
            == s.to_multiset().remove(s[p]),
{
    let u = s.update(p, s.last()).drop_last();
    if p == s.len() - 1 {
        assert(s.update(p, s.last()) =~= s);
        assert(u =~= s.remove(p));
        assert(s.remove(p).to_multiset() == s.to_multiset().remove(s[p]));
    } else {
        let dl = s.drop_last();
        assert(u =~= dl.update(p, s.last()));
        assert(u.remove(p) =~= dl.remove(p));
        assert(u[p] == s.last());
        // u's multiset is dl's with s[p] taken out and the last element put in
        assert(u.remove(p).to_multiset() == u.to_multiset().remove(u[p]));
        assert(dl.remove(p).to_multiset() == dl.to_multiset().remove(dl[p]));
        assert(u.to_multiset().remove(s.last()).insert(s.last()) =~= u.to_multiset()) by {
            assert(u.to_multiset().count(s.last()) > 0) by {
                assert(u[p] == s.last());
                assert(u.contains(s.last()));
            }
        }
        assert(u.to_multiset() == dl.to_multiset().remove(s[p]).insert(s.last()));
        // and s's multiset is dl's with the last element put in
        assert(s =~= dl.push(s.last()));
        assert(s.to_multiset() == dl.to_multiset().insert(s.last()));
        assert(dl.to_multiset().remove(s[p]).insert(s.last())
            =~= dl.to_multiset().insert(s.last()).remove(s[p])) by {
            assert(dl.to_multiset().count(s[p]) > 0) by {
                assert(dl[p] == s[p]);
                assert(dl.contains(s[p]));
            }
        }
    }
}

/// Writing one position swaps the old value for the new one in the multiset.
pub proof fn lemma_update_multiset<A>(s: Seq<A>, j: int, v: A)
    requires
        0 <= j < s.len(),
    ensures
        s.update(j, v).to_multiset() == s.to_multiset().remove(s[j]).insert(v),
{
    let u = s.update(j, v);
    assert(u.remove(j) =~= s.remove(j));
    assert(u.remove(j).to_multiset() == u.to_multiset().remove(u[j]));
    assert(s.remove(j).to_multiset() == s.to_multiset().remove(s[j]));
    assert(u.to_multiset().remove(v).insert(v) =~= u.to_multiset()) by {
        assert(u.to_multiset().count(v) > 0) by {
            assert(u[j] == v);
            assert(u.contains(v));
        }
    }
}

/// Swapping two positions leaves the multiset unchanged.
pub proof fn lemma_swap_multiset<A>(s: Seq<A>, i: int, j: int)
    requires
        0 <= i < s.len(),
        0 <= j < s.len(),
    ensures
        s.update(i, s[j]).update(j, s[i]).to_multiset() == s.to_multiset(),
{
    if i == j {
        assert(s.update(i, s[j]).update(j, s[i]) =~= s);
    } else {
        let u = s.update(i, s[j]);
        lemma_update_multiset(s, i, s[j]);
        lemma_update_multiset(u, j, s[i]);
        assert(u[j] == s[j]);
        assert(u.update(j, s[i]).to_multiset()
            == s.to_multiset().remove(s[i]).insert(s[j]).remove(s[j]).insert(s[i]));
        assert(s.to_multiset().remove(s[i]).insert(s[j]).remove(s[j]).insert(s[i])
            =~= s.to_multiset()) by {
            assert(s.to_multiset().count(s[i]) > 0) by {
                assert(s.contains(s[i]));
            }
        }
    }
}

/// A prefix of a sequence contributes a sub-multiset of the whole.
pub proof fn lemma_take_submultiset<A>(s: Seq<A>, i: int)
    requires
        0 <= i <= s.len(),
    ensures
        s.take(i).to_multiset().subset_of(s.to_multiset()),
{
    let t = s.take(i);
    let k = s.skip(i);
    assert(s =~= t + k);
    lemma_multiset_commutative(t, k);
    assert((t + k).to_multiset() =~= t.to_multiset().add(k.to_multiset()));
    assert(s.to_multiset() == (t + k).to_multiset());
    assert forall|x: A| t.to_multiset().count(x) <= s.to_multiset().count(x) by {
        assert(s.to_multiset().count(x) == t.to_multiset().count(x) + k.to_multiset().count(x));
    }
}

/// Every element of a sequence whose multiset is included in another's also
/// occurs in the other sequence.
pub proof fn lemma_submultiset_elements<A>(sub: Seq<A>, sup: Seq<A>)
    requires
        sub.to_multiset().subset_of(sup.to_multiset()),
    ensures
        forall|i: int| 0 <= i < sub.len() ==> sup.contains(#[trigger] sub[i]),
{
    assert forall|i: int| 0 <= i < sub.len() implies sup.contains(#[trigger] sub[i]) by {
        assert(sub.contains(sub[i]));
        assert(sub.to_multiset().count(sub[i]) > 0);
        assert(sup.to_multiset().count(sub[i]) > 0);
    }
}

/// A sub-multiset is never longer than the multiset that includes it.
pub proof fn lemma_submultiset_len<A>(m1: Multiset<A>, m2: Multiset<A>)
    requires
        m1.subset_of(m2),
    ensures
        m1.len() <= m2.len(),
    decreases m1.len(),
{
    if m1.len() > 0 {
        let x = m1.choose();
        assert(m1.count(x) > 0);
        assert(m2.count(x) > 0);
        lemma_submultiset_len(m1.remove(x), m2.remove(x));
    }
}

/// Inclusion of multisets is transitive.
pub proof fn lemma_subset_transitive<A>(m1: Multiset<A>, m2: Multiset<A>, m3: Multiset<A>)
    requires
        m1.subset_of(m2),
        m2.subset_of(m3),
    ensures
        m1.subset_of(m3),
{
    assert forall|x: A| m1.count(x) <= m3.count(x) by {
        assert(m1.count(x) <= m2.count(x));
        assert(m2.count(x) <= m3.count(x));
    }
}

/// Inclusion of multisets carries over a shared insertion.
pub proof fn lemma_submultiset_insert<A>(m1: Multiset<A>, m2: Multiset<A>, x: A)
    requires
        m1.subset_of(m2),
    ensures
        m1.insert(x).subset_of(m2.insert(x)),
{
}

} // verus!
