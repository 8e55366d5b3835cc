//! Facts about sequences.

use vstd::prelude::*;

verus! {

/// Whether `places` are the places in `s` of what passes a test, ascending, and `kept` is what
/// stands there.
pub open spec fn keeps<A>(
    s: Seq<A>,
    test: spec_fn(A) -> bool,
    kept: Seq<A>,
    places: Seq<int>,
) -> bool {
    &&& places.len() == kept.len()
    &&& forall|k: int|
        0 <= k < places.len() ==> 0 <= #[trigger] places[k] < s.len() && test(s[places[k]])
            && kept[k] == s[places[k]]
    &&& forall|k: int, l: int| 0 <= k < l < places.len() ==> places[k] < places[l]
    &&& forall|i: int| 0 <= i < s.len() && test(#[trigger] s[i]) ==> places.contains(i)
}

/// What a filter keeps, by its places.
pub proof fn lemma_filter_places<A>(s: Seq<A>, test: spec_fn(A) -> bool) -> (places: Seq<int>)
    ensures
        keeps(s, test, s.filter(test), places),
    decreases s.len(),
{
    reveal(Seq::filter);
    if s.len() == 0 {
        Seq::empty()
    } else {
        let less = s.drop_last();
        let before = lemma_filter_places(less, test);
        let n = s.len() - 1;
        assert(s.last() == s[n]);
        let places = if test(s.last()) {
            before.push(n)
        } else {
            before
        };
        assert forall|i: int| 0 <= i < s.len() && test(#[trigger] s[i]) implies places.contains(
            i,
        ) by {
            if i < n {
                assert(less[i] == s[i]);
                let k = choose|k: int| 0 <= k < before.len() && before[k] == i;
                assert(places[k] == i);
            } else {
                assert(places[before.len() as int] == i);
            }
        }
        assert forall|k: int| 0 <= k < places.len() implies 0 <= #[trigger] places[k] < s.len()
            && test(s[places[k]]) && s.filter(test)[k] == s[places[k]] by {
            if k < before.len() {
                assert(before[k] == places[k]);
                assert(less[before[k]] == s[before[k]]);
            }
        }
        places
    }
}

/// Two tests in a row are one.
pub proof fn lemma_filter_twice<A>(
    s: Seq<A>,
    first: spec_fn(A) -> bool,
    second: spec_fn(A) -> bool,
    both: spec_fn(A) -> bool,
)
    requires
        forall|i: int|
            0 <= i < s.len() ==> (both(#[trigger] s[i]) <==> first(s[i]) && second(s[i])),
    ensures
        s.filter(first).filter(second) == s.filter(both),
    decreases s.len(),
{
    reveal(Seq::filter);
    if s.len() > 0 {
        let less = s.drop_last();
        let n = s.len() - 1;
        assert(s.last() == s[n]);
        assert forall|i: int| 0 <= i < less.len() implies (both(#[trigger] less[i]) <==> first(
            less[i],
        ) && second(less[i])) by {
            assert(less[i] == s[i]);
        }
        lemma_filter_twice(less, first, second, both);
        if first(s.last()) {
            let kept = less.filter(first).push(s.last());
            assert(kept.drop_last() =~= less.filter(first));
            assert(s.filter(first) == kept);
        }
    }
}

/// What two places of a sequence pass, its filter has twice.
pub proof fn lemma_filter_has_two<A>(s: Seq<A>, test: spec_fn(A) -> bool, i: int, j: int)
    requires
        0 <= i < s.len(),
        0 <= j < s.len(),
        i != j,
        test(s[i]),
        test(s[j]),
    ensures
        s.filter(test).len() > 1,
        s.filter(test).contains(s[i]),
        s.filter(test).contains(s[j]),
{
    let kept = s.filter(test);
    let places = lemma_filter_places(s, test);
    let k = choose|k: int| 0 <= k < places.len() && places[k] == i;
    let l = choose|l: int| 0 <= l < places.len() && places[l] == j;
    assert(places.contains(i) && places.contains(j));
    assert(kept[k] == s[i] && kept[l] == s[j]);
}

} // verus!
