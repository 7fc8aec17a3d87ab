//! Facts about filtering sequences that the order book's proofs share.

use vstd::prelude::*;

verus! {

/// Filtering keeps a sequence whose members all pass.
pub proof fn lemma_filter_keeps_all<A>(s: Seq<A>, pred: spec_fn(A) -> bool)
    requires
        forall|i: int| 0 <= i < s.len() ==> pred(#[trigger] s[i]),
    ensures
        s.filter(pred) == s,
    decreases s.len(),
{
    reveal(Seq::filter);
    if s.len() > 0 {
        lemma_filter_keeps_all(s.drop_last(), pred);
        assert(s.drop_last().push(s.last()) =~= s);
    }
}

/// Filtering empties a sequence none of whose members pass.
pub proof fn lemma_filter_drops_all<A>(s: Seq<A>, pred: spec_fn(A) -> bool)
    requires
        forall|i: int| 0 <= i < s.len() ==> !pred(#[trigger] s[i]),
    ensures
        s.filter(pred) == Seq::<A>::empty(),
    decreases s.len(),
{
    reveal(Seq::filter);
    if s.len() > 0 {
        lemma_filter_drops_all(s.drop_last(), pred);
    }
}

/// An empty filter result means that no member passes.
pub proof fn lemma_filter_empty_means_none<A>(s: Seq<A>, pred: spec_fn(A) -> bool)
    requires
        s.filter(pred).len() == 0,
    ensures
        forall|i: int| 0 <= i < s.len() ==> !pred(#[trigger] s[i]),
    decreases s.len(),
{
    reveal(Seq::filter);
    if s.len() > 0 {
        let front = s.drop_last();
        if pred(s.last()) {
            assert(s.filter(pred) == front.filter(pred).push(s.last()));
        }
        lemma_filter_empty_means_none(front, pred);
        assert forall|i: int| 0 <= i < s.len() implies !pred(#[trigger] s[i]) by {
            if i < s.len() - 1 {
                assert(front[i] == s[i]);
            }
        }
    }
}

/// Removing a member that does not pass leaves the filter result as it was.
pub proof fn lemma_filter_remove_failing<A>(s: Seq<A>, pred: spec_fn(A) -> bool, i: int)
    requires
        0 <= i < s.len(),
        !pred(s[i]),
    ensures
        s.remove(i).filter(pred) == s.filter(pred),
{
    let head = s.take(i);
    let one = seq![s[i]];
    let tail = s.skip(i + 1);
    assert(s =~= head + one + tail);
    assert(s.remove(i) =~= head + tail);
    Seq::filter_distributes_over_add(head, tail, pred);
    Seq::filter_distributes_over_add(head + one, tail, pred);
    Seq::filter_distributes_over_add(head, one, pred);
    lemma_filter_drops_all(one, pred);
    assert(head.filter(pred) + Seq::<A>::empty() =~= head.filter(pred));
}

/// Where exactly the member at `i` fails, filtering removes it.
pub proof fn lemma_filter_removes_only<A>(s: Seq<A>, pred: spec_fn(A) -> bool, i: int)
    requires
        0 <= i < s.len(),
        !pred(s[i]),
        forall|j: int| 0 <= j < s.len() && j != i ==> pred(#[trigger] s[j]),
    ensures
        s.filter(pred) == s.remove(i),
{
    lemma_filter_remove_failing(s, pred, i);
    let rest = s.remove(i);
    assert forall|j: int| 0 <= j < rest.len() implies pred(#[trigger] rest[j]) by {
        if j < i {
            assert(rest[j] == s[j]);
        } else {
            assert(rest[j] == s[j + 1]);
        }
    }
    lemma_filter_keeps_all(rest, pred);
}

/// Two filters may be applied in either order.
pub proof fn lemma_filter_commutes<A>(s: Seq<A>, p: spec_fn(A) -> bool, q: spec_fn(A) -> bool)
    ensures
        s.filter(p).filter(q) == s.filter(q).filter(p),
    decreases s.len(),
{
    reveal(Seq::filter);
    if s.len() > 0 {
        let front = s.drop_last();
        let x = s.last();
        lemma_filter_commutes(front, p, q);
        if p(x) {
            Seq::lemma_filter_push(front.filter(p), x, q);
        }
        if q(x) {
            Seq::lemma_filter_push(front.filter(q), x, p);
        }
    }
}

/// Mapping after filtering is filtering after mapping, where the filter on
/// the images asks what the filter on the members asks.
pub proof fn lemma_filter_map_commutes<A, B>(
    s: Seq<A>,
    f: spec_fn(A) -> B,
    on_members: spec_fn(A) -> bool,
    on_images: spec_fn(B) -> bool,
)
    requires
        forall|a: A| on_members(a) == on_images(#[trigger] f(a)),
    ensures
        s.filter(on_members).map_values(f) == s.map_values(f).filter(on_images),
    decreases s.len(),
{
    reveal(Seq::filter);
    if s.len() == 0 {
        assert(s.filter(on_members).map_values(f) =~= Seq::<B>::empty());
        assert(s.map_values(f) =~= Seq::<B>::empty());
    } else {
        let front = s.drop_last();
        let x = s.last();
        lemma_filter_map_commutes(front, f, on_members, on_images);
        assert(s.map_values(f).drop_last() =~= front.map_values(f));
        assert(s.map_values(f).last() == f(x));
        if on_members(x) {
            assert(front.filter(on_members).push(x).map_values(f) =~= front.filter(
                on_members,
            ).map_values(f).push(f(x)));
        }
    }
}

/// Two sequences that agree, member by member, on a filter and on a mapping
/// have the same mapped filter result.
pub proof fn lemma_filter_map_agrees<A, B>(
    s: Seq<A>,
    t: Seq<A>,
    pred: spec_fn(A) -> bool,
    f: spec_fn(A) -> B,
)
    requires
        s.len() == t.len(),
        forall|i: int| 0 <= i < s.len() ==> pred(#[trigger] s[i]) == pred(t[i]),
        forall|i: int| 0 <= i < s.len() && pred(s[i]) ==> f(#[trigger] s[i]) == f(t[i]),
    ensures
        s.filter(pred).map_values(f) == t.filter(pred).map_values(f),
    decreases s.len(),
{
    reveal(Seq::filter);
    if s.len() == 0 {
        assert(s.filter(pred) =~= t.filter(pred));
    } else {
        let sf = s.drop_last();
        let tf = t.drop_last();
        assert forall|i: int| 0 <= i < sf.len() implies pred(#[trigger] sf[i]) == pred(tf[i]) by {
            assert(sf[i] == s[i] && tf[i] == t[i]);
        }
        assert forall|i: int| 0 <= i < sf.len() && pred(sf[i]) implies f(#[trigger] sf[i]) == f(
            tf[i],
        ) by {
            assert(sf[i] == s[i] && tf[i] == t[i]);
        }
        lemma_filter_map_agrees(sf, tf, pred, f);
        assert(pred(s.last()) == pred(t.last())) by {
            assert(s[s.len() - 1] == s.last());
        }
        if pred(s.last()) {
            assert(f(s.last()) == f(t.last())) by {
                assert(s[s.len() - 1] == s.last());
            }
            assert(sf.filter(pred).push(s.last()).map_values(f) =~= sf.filter(pred).map_values(
                f,
            ).push(f(s.last())));
            assert(tf.filter(pred).push(t.last()).map_values(f) =~= tf.filter(pred).map_values(
                f,
            ).push(f(t.last())));
        }
    }
}

/// Two filters that ask the same of each member give the same result.
pub proof fn lemma_filter_same<A>(s: Seq<A>, p: spec_fn(A) -> bool, q: spec_fn(A) -> bool)
    requires
        forall|i: int| 0 <= i < s.len() ==> p(#[trigger] s[i]) == q(s[i]),
    ensures
        s.filter(p) == s.filter(q),
    decreases s.len(),
{
    reveal(Seq::filter);
    if s.len() > 0 {
        let front = s.drop_last();
        assert forall|i: int| 0 <= i < front.len() implies p(#[trigger] front[i]) == q(
            front[i],
        ) by {
            assert(front[i] == s[i]);
        }
        lemma_filter_same(front, p, q);
        assert(p(s[s.len() - 1]) == q(s[s.len() - 1]));
    }
}

/// One filter after another is the filter that asks for both.
pub proof fn lemma_filter_twice<A>(
    s: Seq<A>,
    p: spec_fn(A) -> bool,
    q: spec_fn(A) -> bool,
    both: spec_fn(A) -> bool,
)
    requires
        forall|a: A| #[trigger] both(a) == (p(a) && q(a)),
    ensures
        s.filter(p).filter(q) == s.filter(both),
    decreases s.len(),
{
    reveal(Seq::filter);
    if s.len() > 0 {
        let front = s.drop_last();
        lemma_filter_twice(front, p, q, both);
        if p(s.last()) {
            front.filter(p).lemma_filter_push(s.last(), q);
        }
    }
}

/// What a filter keeps of a prefix grown by one member.
pub proof fn lemma_filter_take_step<A>(s: Seq<A>, pred: spec_fn(A) -> bool, n: int)
    requires
        0 <= n < s.len(),
    ensures
        s.take(n + 1).filter(pred) == if pred(s[n]) {
            s.take(n).filter(pred).push(s[n])
        } else {
            s.take(n).filter(pred)
        },
{
    assert(s.take(n + 1) =~= s.take(n).push(s[n]));
    s.take(n).lemma_filter_push(s[n], pred);
}

} // verus!
