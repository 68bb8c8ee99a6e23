use vstd::prelude::*;
use vstd::multiset::Multiset;
use mset::MultiSet;
use crate::role::Class;

verus! {

broadcast use vstd::seq_lib::group_to_multiset_ensures;

#[verifier::external_type_specification]
#[verifier::external_body]
#[verifier::reject_recursive_types(T)]
#[verifier::reject_recursive_types(S)]
pub struct ExMultiSet<T, S>(mset::MultiSet<T, S>);

/// The roles held by an `mset::MultiSet`, with their multiplicities.
pub uninterp spec fn multiset_contents(m: MultiSet<Class>) -> Multiset<Class>;

/// Relies on `mset::MultiSet::new`: the new multiset is empty.
#[verifier::external_body]
fn multiset_new() -> (r: MultiSet<Class>)
    ensures
        multiset_contents(r) == Multiset::<Class>::empty(),
{
    MultiSet::new()
}

/// Relies on `mset::MultiSet::insert`: the multiplicity of `c` grows by one
/// (the count is a `usize` that is incremented, hence the bound).
#[verifier::external_body]
fn multiset_insert(m: &mut MultiSet<Class>, c: Class)
    requires
        multiset_contents(*old(m)).count(c) < usize::MAX,
    ensures
        multiset_contents(*final(m)) == multiset_contents(*old(m)).insert(c),
{
    m.insert(c);
}

/// Relies on `mset::MultiSet::remove`: one copy of `c` goes, if there is one,
/// and the result says whether there was.
#[verifier::external_body]
fn multiset_remove(m: &mut MultiSet<Class>, c: Class) -> (r: bool)
    ensures
        r == multiset_contents(*old(m)).contains(c),
        multiset_contents(*final(m)) == multiset_contents(*old(m)).remove(c),
{
    m.remove(&c)
}

/// Relies on `mset::MultiSet::is_subset`: every element of `a` occurs in `b`
/// at least as often.
#[verifier::external_body]
fn multiset_is_subset(a: &MultiSet<Class>, b: &MultiSet<Class>) -> (r: bool)
    ensures
        r == multiset_contents(*a).subset_of(multiset_contents(*b)),
{
    a.is_subset(b)
}

/// Collects `cards` into a multiset.
pub fn multiset_of(cards: &Vec<Class>) -> (r: MultiSet<Class>)
    ensures
        multiset_contents(r) == cards@.to_multiset(),
{
    let mut m = multiset_new();
    let mut i: usize = 0;
    while i < cards.len()
        invariant
            i <= cards@.len(),
            multiset_contents(m) == cards@.subrange(0, i as int).to_multiset(),
            forall|c: Class| #[trigger] multiset_contents(m).count(c) <= i,
        decreases cards@.len() - i,
    {
        let c = cards[i];
        multiset_insert(&mut m, c);
        assert(cards@.subrange(0, i + 1) == cards@.subrange(0, i as int).push(c));
        i = i + 1;
    }
    assert(cards@.subrange(0, cards@.len() as int) == cards@);
    m
}

/// Whether `keep` is an admissible choice of cards to keep out of
/// `candidates`: exactly `keep_count` cards, none of them claiming a copy
/// that the candidates do not hold.
pub fn is_valid_selection(candidates: &Vec<Class>, keep: &Vec<Class>, keep_count: usize) -> (r: bool)
    ensures
        r == (keep@.len() == keep_count && keep@.to_multiset().subset_of(candidates@.to_multiset())),
{
    if keep.len() != keep_count {
        return false;
    }
    let cm = multiset_of(candidates);
    let km = multiset_of(keep);
    multiset_is_subset(&km, &cm)
}

/// The cards of `candidates` that are left once `keep` is taken out of them.
pub fn remainder(candidates: &Vec<Class>, keep: &Vec<Class>) -> (r: Vec<Class>)
    requires
        keep@.to_multiset().subset_of(candidates@.to_multiset()),
    ensures
        r@.to_multiset() == candidates@.to_multiset().sub(keep@.to_multiset()),
        r@.len() + keep@.len() == candidates@.len(),
{
    let mut k = multiset_of(keep);
    let ghost k0 = keep@.to_multiset();
    let mut rest: Vec<Class> = Vec::new();
    let mut i: usize = 0;
    assert(candidates@.subrange(0, candidates@.len() as int) == candidates@);
    while i < candidates.len()
        invariant
            i <= candidates@.len(),
            k0 == keep@.to_multiset(),
            multiset_contents(k).subset_of(candidates@.subrange(i as int, candidates@.len() as int).to_multiset()),
            multiset_contents(k).subset_of(k0),
            candidates@.subrange(0, i as int).to_multiset() == k0.sub(multiset_contents(k)).add(rest@.to_multiset()),
        decreases candidates@.len() - i,
    {
        let c = candidates[i];
        let ghost kb = multiset_contents(k);
        let ghost tail = candidates@.subrange(i as int, candidates@.len() as int);
        let ghost rb = rest@;
        assert(tail.remove(0) == candidates@.subrange(i + 1, candidates@.len() as int));
        assert(candidates@.subrange(0, i + 1) == candidates@.subrange(0, i as int).push(c));
        assert(tail[0] == c);
        if multiset_remove(&mut k, c) {
            assert(multiset_contents(k) =~= kb.remove(c));
            assert(k0.sub(multiset_contents(k)).add(rest@.to_multiset()) =~= k0.sub(kb).add(rest@.to_multiset()).insert(c));
        } else {
            rest.push(c);
            assert(multiset_contents(k) =~= kb);
            assert(k0.sub(multiset_contents(k)).add(rest@.to_multiset()) =~= k0.sub(kb).add(rb.to_multiset()).insert(c));
        }
        assert(multiset_contents(k).subset_of(tail.remove(0).to_multiset()));
        i = i + 1;
    }
    assert(candidates@.subrange(i as int, candidates@.len() as int).to_multiset() =~= Multiset::empty());
    assert(multiset_contents(k) =~= Multiset::empty());
    assert(candidates@.subrange(0, i as int) == candidates@);
    assert(candidates@.to_multiset() =~= k0.add(rest@.to_multiset()));
    assert(rest@.to_multiset() =~= candidates@.to_multiset().sub(k0));
    assert(candidates@.to_multiset().len() == k0.len() + rest@.to_multiset().len());
    rest
}

/// Whether two card lists hold the same cards, counting copies.
pub fn same_cards(a: &Vec<Class>, b: &Vec<Class>) -> (r: bool)
    ensures
        r == (a@.to_multiset() == b@.to_multiset()),
{
    let am = multiset_of(a);
    let bm = multiset_of(b);
    let r = multiset_is_subset(&am, &bm) && multiset_is_subset(&bm, &am);
    proof {
        if r {
            assert(a@.to_multiset() =~= b@.to_multiset());
        }
    }
    r
}

} // verus!
