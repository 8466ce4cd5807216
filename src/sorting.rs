use vstd::prelude::*;

verus! {

broadcast use vstd::seq_lib::group_seq_properties;

/// `s` with `x` inserted before the trailing run of items that must come after it.
/// `after(a, b)` says that `a` must come after `b`.
pub open spec fn insert_sorted(s: Seq<usize>, x: usize, after: spec_fn(usize, usize) -> bool) -> Seq<
    usize,
>
    decreases s.len(),
{
    if s.len() == 0 {
        seq![x]
    } else if after(s.last(), x) {
        insert_sorted(s.drop_last(), x, after).push(s.last())
    } else {
        s.push(x)
    }
}

/// The stable sort of `s` by `after`: each item in turn is inserted into the sorted items
/// before it, after every item that it does not have to precede.
pub open spec fn sort_by(s: Seq<usize>, after: spec_fn(usize, usize) -> bool) -> Seq<usize>
    decreases s.len(),
{
    if s.len() == 0 {
        Seq::empty()
    } else {
        insert_sorted(sort_by(s.drop_last(), after), s.last(), after)
    }
}

/// `after` never holds both ways.
pub open spec fn is_asymmetric(after: spec_fn(usize, usize) -> bool) -> bool {
    forall|a: usize, b: usize| #[trigger] after(a, b) ==> !after(b, a)
}

/// No item of `s` must come after the one that follows it.
pub open spec fn is_sorted_by(s: Seq<usize>, after: spec_fn(usize, usize) -> bool) -> bool {
    forall|i: int| 0 <= i < s.len() - 1 ==> !after(#[trigger] s[i], s[i + 1])
}

/// Where insertion stops, the result is the three parts around the position.
pub proof fn lemma_insert_at(
    s: Seq<usize>,
    x: usize,
    after: spec_fn(usize, usize) -> bool,
    j: int,
)
    requires
        0 <= j <= s.len(),
        forall|k: int| j <= k < s.len() ==> after(#[trigger] s[k], x),
        j > 0 ==> !after(s[j - 1], x),
    ensures
        insert_sorted(s, x, after) == s.take(j) + seq![x] + s.skip(j),
    decreases s.len(),
{
    if s.len() == 0 {
        assert(s.take(j) + seq![x] + s.skip(j) =~= seq![x]);
    } else if j == s.len() {
        assert(s.take(j) + seq![x] + s.skip(j) =~= s.push(x));
    } else {
        assert(after(s.last(), x));
        let t = s.drop_last();
        assert forall|k: int| j <= k < t.len() implies after(#[trigger] t[k], x) by {
            assert(t[k] == s[k]);
        }
        lemma_insert_at(t, x, after, j);
        assert(t.take(j) + seq![x] + t.skip(j) + seq![s.last()] =~= s.take(j) + seq![x] + s.skip(
            j,
        ));
    }
}

/// Inserting keeps every item and adds `x`.
pub proof fn lemma_insert_sorted_items(s: Seq<usize>, x: usize, after: spec_fn(usize, usize) -> bool)
    ensures
        insert_sorted(s, x, after).len() == s.len() + 1,
        insert_sorted(s, x, after).to_multiset() == s.to_multiset().insert(x),
        insert_sorted(s, x, after).last() == x || (s.len() > 0 && insert_sorted(s, x, after).last()
            == s.last()),
    decreases s.len(),
{
    if s.len() > 0 && after(s.last(), x) {
        let t = s.drop_last();
        lemma_insert_sorted_items(t, x, after);
        assert(s =~= t.push(s.last()));
        assert(insert_sorted(s, x, after).to_multiset() == insert_sorted(t, x, after).to_multiset().insert(
            s.last(),
        ));
        assert(s.to_multiset() == t.to_multiset().insert(s.last()));
        assert(t.to_multiset().insert(x).insert(s.last()) =~= t.to_multiset().insert(
            s.last(),
        ).insert(x));
    }
}

/// Inserting into a sorted sequence keeps it sorted, where `after` is asymmetric.
pub proof fn lemma_insert_sorted_sorted(
    s: Seq<usize>,
    x: usize,
    after: spec_fn(usize, usize) -> bool,
)
    requires
        is_asymmetric(after),
        is_sorted_by(s, after),
    ensures
        is_sorted_by(insert_sorted(s, x, after), after),
    decreases s.len(),
{
    let r = insert_sorted(s, x, after);
    if s.len() > 0 && after(s.last(), x) {
        let t = s.drop_last();
        assert(is_sorted_by(t, after)) by {
            assert forall|i: int| 0 <= i < t.len() - 1 implies !after(#[trigger] t[i], t[i + 1]) by {
                assert(t[i] == s[i] && t[i + 1] == s[i + 1]);
            }
        }
        lemma_insert_sorted_sorted(t, x, after);
        lemma_insert_sorted_items(t, x, after);
        let u = insert_sorted(t, x, after);
        assert forall|i: int| 0 <= i < r.len() - 1 implies !after(#[trigger] r[i], r[i + 1]) by {
            if i < u.len() - 1 {
                assert(r[i] == u[i] && r[i + 1] == u[i + 1]);
            } else {
                assert(r[i] == u.last() && r[i + 1] == s.last());
                if u.last() == x {
                    assert(after(s.last(), x));
                } else {
                    assert(u.last() == t.last());
                    assert(t.last() == s[s.len() - 2]);
                }
            }
        }
    } else if s.len() > 0 {
        assert forall|i: int| 0 <= i < r.len() - 1 implies !after(#[trigger] r[i], r[i + 1]) by {
            if i < s.len() - 1 {
                assert(r[i] == s[i] && r[i + 1] == s[i + 1]);
            }
        }
    }
}

/// A stable sort keeps the items and puts them in order, where `after` is asymmetric.
pub proof fn lemma_sort_by(s: Seq<usize>, after: spec_fn(usize, usize) -> bool)
    requires
        is_asymmetric(after),
    ensures
        sort_by(s, after).len() == s.len(),
        sort_by(s, after).to_multiset() == s.to_multiset(),
        is_sorted_by(sort_by(s, after), after),
    decreases s.len(),
{
    if s.len() > 0 {
        let t = s.drop_last();
        lemma_sort_by(t, after);
        lemma_insert_sorted_items(sort_by(t, after), s.last(), after);
        lemma_insert_sorted_sorted(sort_by(t, after), s.last(), after);
        assert(s =~= t.push(s.last()));
    }
}

} // verus!
