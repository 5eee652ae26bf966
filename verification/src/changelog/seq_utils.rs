//! Sequences of items with views, and the collection of results that ends
//! at the first error.

use crate::error::{Error, ErrorView};
use vstd::prelude::*;

verus! {

/// The values of the items of `items`.
pub open spec fn items_view<T: View>(items: Seq<T>) -> Seq<T::V> {
    Seq::new(items.len(), |i: int| items[i]@)
}

/// The values of a sequence with one more item are the values of the
/// sequence with one more value.
pub proof fn lemma_items_view_push<T: View>(items: Seq<T>, x: T)
    ensures
        items_view(items.push(x)) == items_view(items).push(x@),
{
    assert(items_view(items.push(x)) =~= items_view(items).push(x@));
}

/// Whether `a` and `b` hold the same items, in whatever order and however
/// often.
pub open spec fn same_items<T>(a: Seq<T>, b: Seq<T>) -> bool {
    forall|x: T| a.contains(x) <==> b.contains(x)
}

/// The mathematical value of one outcome.
pub open spec fn result_view<T: View>(r: Result<T, Error>) -> Result<T::V, ErrorView> {
    match r {
        Ok(x) => Ok(x@),
        Err(e) => Err(e@),
    }
}

/// The mathematical value of the outcome of a collection.
pub open spec fn results_view<T: View>(r: Result<Vec<T>, Error>) -> Result<Seq<T::V>, ErrorView> {
    match r {
        Ok(v) => Ok(items_view(v@)),
        Err(e) => Err(e@),
    }
}

/// The results of `f` on the items of `s`, in their order, or the error of
/// the first item on which `f` fails.
pub open spec fn try_map<A, B>(s: Seq<A>, f: spec_fn(A) -> Result<B, ErrorView>) -> Result<
    Seq<B>,
    ErrorView,
>
    decreases s.len(),
{
    if s.len() == 0 {
        Ok(Seq::empty())
    } else {
        match try_map(s.drop_last(), f) {
            Err(e) => Err(e),
            Ok(done) => match f(s.last()) {
                Err(e) => Err(e),
                Ok(x) => Ok(done.push(x)),
            },
        }
    }
}

/// A collection that fails on the first `i` items fails in the same way on
/// all of them: the first error ends it.
pub proof fn lemma_try_map_failure<A, B>(s: Seq<A>, i: int, f: spec_fn(A) -> Result<B, ErrorView>)
    requires
        0 <= i <= s.len(),
        try_map(s.take(i), f) is Err,
    ensures
        try_map(s, f) == try_map(s.take(i), f),
    decreases s.len() - i,
{
    if i < s.len() {
        assert(s.take(i + 1).drop_last() == s.take(i));
        lemma_try_map_failure(s, i + 1, f);
    } else {
        assert(s.take(i) == s);
    }
}

/// A collection that succeeds yields one result for each item, that of `f`
/// on it.
pub proof fn lemma_try_map_success<A, B>(s: Seq<A>, f: spec_fn(A) -> Result<B, ErrorView>)
    requires
        try_map(s, f) is Ok,
    ensures
        try_map(s, f)->Ok_0.len() == s.len(),
        forall|i: int| 0 <= i < s.len() ==> f(#[trigger] s[i]) == Ok::<B, ErrorView>(
            try_map(s, f)->Ok_0[i],
        ),
    decreases s.len(),
{
    if s.len() > 0 {
        let t = s.drop_last();
        lemma_try_map_success(t, f);
        assert forall|i: int| 0 <= i < s.len() implies f(#[trigger] s[i]) == Ok::<B, ErrorView>(
            try_map(s, f)->Ok_0[i],
        ) by {
            if i < t.len() {
                assert(s[i] == t[i]);
            }
        }
    }
}

/// A collection succeeds where `f` succeeds on each item.
pub proof fn lemma_try_map_total<A, B>(s: Seq<A>, f: spec_fn(A) -> Result<B, ErrorView>)
    requires
        forall|j: int| 0 <= j < s.len() ==> f(#[trigger] s[j]) is Ok,
    ensures
        try_map(s, f) is Ok,
    decreases s.len(),
{
    if s.len() > 0 {
        let rest = s.drop_last();
        assert forall|j: int| 0 <= j < rest.len() implies f(#[trigger] rest[j]) is Ok by {
            assert(rest[j] == s[j]);
        }
        lemma_try_map_total(rest, f);
        assert(f(s[s.len() - 1]) is Ok);
    }
}

/// The first item on which `f` fails decides the outcome of a collection:
/// it fails with the error of that item.
pub proof fn lemma_try_map_first_failure<A, B>(
    s: Seq<A>,
    f: spec_fn(A) -> Result<B, ErrorView>,
    i: int,
)
    requires
        0 <= i < s.len(),
        f(s[i]) is Err,
        forall|j: int| 0 <= j < i ==> f(#[trigger] s[j]) is Ok,
    ensures
        try_map(s, f) == Err::<Seq<B>, ErrorView>(f(s[i])->Err_0),
{
    let before = s.take(i);
    assert forall|j: int| 0 <= j < before.len() implies f(#[trigger] before[j]) is Ok by {
        assert(before[j] == s[j]);
    }
    lemma_try_map_total(before, f);
    assert(s.take(i + 1).drop_last() == before);
    assert(s.take(i + 1).last() == s[i]);
    lemma_try_map_failure(s, i + 1, f);
}

/// Collections from the same items, where both succeed, hold the same
/// results.
pub proof fn lemma_try_map_same_items<A, B>(a: Seq<A>, b: Seq<A>, f: spec_fn(A) -> Result<B, ErrorView>)
    requires
        try_map(a, f) is Ok,
        try_map(b, f) is Ok,
        same_items(a, b),
    ensures
        same_items(try_map(a, f)->Ok_0, try_map(b, f)->Ok_0),
{
    lemma_try_map_success(a, f);
    lemma_try_map_success(b, f);
    let ra = try_map(a, f)->Ok_0;
    let rb = try_map(b, f)->Ok_0;
    assert forall|y: B| ra.contains(y) <==> rb.contains(y) by {
        if ra.contains(y) {
            let i = choose|i: int| 0 <= i < ra.len() && ra[i] == y;
            assert(a.contains(a[i]));
            assert(b.contains(a[i]));
            let j = choose|j: int| 0 <= j < b.len() && b[j] == a[i];
            assert(f(b[j]) == Ok::<B, ErrorView>(rb[j]));
            assert(rb[j] == y);
        }
        if rb.contains(y) {
            let i = choose|i: int| 0 <= i < rb.len() && rb[i] == y;
            assert(b.contains(b[i]));
            assert(a.contains(b[i]));
            let j = choose|j: int| 0 <= j < a.len() && a[j] == b[i];
            assert(f(a[j]) == Ok::<B, ErrorView>(ra[j]));
            assert(ra[j] == y);
        }
    }
}

/// Applies `f` to each of `items` in turn and collects the results. The
/// first error ends the collection and is returned.
///
/// `spec_f` says what `f` computes.
pub fn collect_results<S: View + Copy, T: View, F>(
    items: &Vec<S>,
    f: F,
    Ghost(spec_f): Ghost<spec_fn(S::V) -> Result<T::V, ErrorView>>,
) -> (r: Result<Vec<T>, Error>) where F: Fn(S) -> Result<T, Error>
    requires
        forall|x: S| call_requires(f, (x,)),
        forall|x: S, o: Result<T, Error>| call_ensures(f, (x,), o) ==> result_view(o) == spec_f(x@),
    ensures
        results_view(r) == try_map(items_view(items@), spec_f),
{
    let ghost views = items_view(items@);
    let mut done: Vec<T> = Vec::new();
    let mut i: usize = 0;
    assert(views.take(0) == Seq::<S::V>::empty());
    assert(items_view(done@) == Seq::<T::V>::empty());
    while i < items.len()
        invariant
            i <= items.len(),
            views == items_view(items@),
            forall|x: S| call_requires(f, (x,)),
            forall|x: S, o: Result<T, Error>|
                call_ensures(f, (x,), o) ==> result_view(o) == spec_f(x@),
            try_map(views.take(i as int), spec_f) == Ok::<Seq<T::V>, ErrorView>(items_view(done@)),
        decreases items.len() - i,
    {
        assert(views.take(i + 1).drop_last() == views.take(i as int));
        assert(views.take(i + 1).last() == items[i as int]@);
        match f(items[i]) {
            Err(e) => {
                proof {
                    assert(try_map(views.take(i + 1), spec_f) == Err::<Seq<T::V>, ErrorView>(e@));
                    lemma_try_map_failure(views, i + 1, spec_f);
                }
                return Err(e);
            },
            Ok(x) => {
                proof {
                    lemma_items_view_push(done@, x);
                }
                done.push(x);
            },
        }
        i += 1;
    }
    assert(views.take(items.len() as int) == views);
    Ok(done)
}

} // verus!
