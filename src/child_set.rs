//! Ordered sets of child indices, kept in a `LinkedHashSet` so that a node's
//! children are enumerated in the order in which they were attached.
use linked_hash_set::LinkedHashSet;
use vstd::prelude::*;

verus! {

#[verifier::external_type_specification]
#[verifier::external_body]
#[verifier::reject_recursive_types(T)]
#[verifier::reject_recursive_types(S)]
pub struct ExLinkedHashSet<T, S>(LinkedHashSet<T, S>);

/// The indices held by a set, in the set's iteration order.
pub uninterp spec fn ordered_items(s: LinkedHashSet<usize>) -> Seq<usize>;

/// `s` with every occurrence of `v` taken out.
pub open spec fn without(s: Seq<usize>, v: usize) -> Seq<usize> {
    s.filter(|x: usize| x != v)
}

/// Taking out a value that is not there changes nothing.
pub proof fn lemma_without_absent(s: Seq<usize>, v: usize)
    requires
        !s.contains(v),
    ensures
        without(s, v) == s,
    decreases s.len(),
{
    reveal(Seq::filter);
    if s.len() > 0 {
        assert(!s.drop_last().contains(v)) by {
            if s.drop_last().contains(v) {
                let k = choose|k: int| 0 <= k < s.drop_last().len() && s.drop_last()[k] == v;
                assert(s[k] == v);
            }
        }
        lemma_without_absent(s.drop_last(), v);
        assert(s.drop_last().push(s.last()) =~= s);
    }
}

/// What is left after taking out `v`: the other values, none twice if
/// none was twice before.
pub proof fn lemma_without_contents(s: Seq<usize>, v: usize)
    ensures
        forall|x: usize| #[trigger] without(s, v).contains(x) <==> (s.contains(x) && x != v),
        s.no_duplicates() ==> without(s, v).no_duplicates(),
    decreases s.len(),
{
    reveal(Seq::filter);
    if s.len() > 0 {
        let d = s.drop_last();
        lemma_without_contents(d, v);
        assert(d.push(s.last()) =~= s);
        assert forall|x: usize| #[trigger] without(s, v).contains(x) <==> (s.contains(x) && x != v) by {
            if s.contains(x) && x != v {
                let k = choose|k: int| 0 <= k < s.len() && s[k] == x;
                if k < d.len() {
                    assert(d[k] == x);
                    assert(without(d, v).contains(x));
                    let j = choose|j: int| 0 <= j < without(d, v).len() && without(d, v)[j] == x;
                    assert(without(s, v)[j] == x);
                } else {
                    assert(without(s, v).last() == x);
                }
            }
            if without(s, v).contains(x) {
                let j = choose|j: int| 0 <= j < without(s, v).len() && without(s, v)[j] == x;
                if j < without(d, v).len() {
                    assert(without(d, v)[j] == x);
                    assert(without(d, v).contains(x));
                    let k = choose|k: int| 0 <= k < d.len() && d[k] == x;
                    assert(s[k] == x);
                } else {
                    assert(s[s.len() - 1] == x);
                }
            }
        }
        if s.no_duplicates() {
            assert(d.no_duplicates());
            if s.last() != v {
                assert(!d.contains(s.last())) by {
                    if d.contains(s.last()) {
                        let k = choose|k: int| 0 <= k < d.len() && d[k] == s.last();
                        assert(s[k] == s[s.len() - 1]);
                    }
                }
                assert(!without(d, v).contains(s.last()));
            }
        }
    }
}

/// Relies on `LinkedHashSet::new`: a new set holds nothing.
#[verifier::external_body]
pub(crate) fn empty_set() -> (r: LinkedHashSet<usize>)
    ensures
        ordered_items(r) == Seq::<usize>::empty(),
{
    LinkedHashSet::new()
}

/// Relies on `LinkedHashSet::insert`: the value ends up last in the order,
/// whether or not it was present before; the other values keep their order.
#[verifier::external_body]
pub(crate) fn push_back(s: &mut LinkedHashSet<usize>, v: usize)
    ensures
        ordered_items(*final(s)) == without(ordered_items(*old(s)), v).push(v),
{
    s.insert(v);
}

/// Relies on `LinkedHashSet::remove`: the value leaves the set; the other
/// values keep their order.
#[verifier::external_body]
pub(crate) fn remove_item(s: &mut LinkedHashSet<usize>, v: usize)
    ensures
        ordered_items(*final(s)) == without(ordered_items(*old(s)), v),
{
    s.remove(&v);
}

/// Relies on `LinkedHashSet::iter`: it yields the values in the set's order.
#[verifier::external_body]
pub(crate) fn to_vec(s: &LinkedHashSet<usize>) -> (r: Vec<usize>)
    ensures
        r@ == ordered_items(*s),
{
    s.iter().copied().collect()
}

/// Relies on `LinkedHashSet::len`: the number of values held.
#[verifier::external_body]
pub(crate) fn count(s: &LinkedHashSet<usize>) -> (r: usize)
    ensures
        r == ordered_items(*s).len(),
{
    s.len()
}

} // verus!
