use vstd::prelude::*;

verus! {

broadcast use vstd::seq_lib::group_seq_properties;

/// Membership in a filtered sequence.
pub proof fn lemma_filter_contains_iff<A>(s: Seq<A>, p: spec_fn(A) -> bool, x: A)
    ensures
        s.filter(p).contains(x) <==> s.contains(x) && p(x),
{
    if s.filter(p).contains(x) {
        s.lemma_filter_contains_rev(p, x);
        let i = choose|i: int| 0 <= i < s.filter(p).len() && s.filter(p)[i] == x;
        s.lemma_filter_pred(p, i);
    }
    if s.contains(x) && p(x) {
        let i = choose|i: int| 0 <= i < s.len() && s[i] == x;
        s.lemma_filter_contains(p, i);
    }
}

/// Filtering keeps a sequence free of duplicates.
pub proof fn lemma_filter_no_dup<A>(s: Seq<A>, p: spec_fn(A) -> bool)
    requires
        s.no_duplicates(),
    ensures
        s.filter(p).no_duplicates(),
    decreases s.len(),
{
    reveal(Seq::filter);
    if s.len() > 0 {
        let r = s.drop_last();
        let c = s.last();
        assert(r.no_duplicates());
        lemma_filter_no_dup(r, p);
        if p(c) {
            let f = r.filter(p);
            if f.contains(c) {
                r.lemma_filter_contains_rev(p, c);
                let i = choose|i: int| 0 <= i < r.len() && r[i] == c;
                assert(s[i] == s[s.len() - 1]);
            }
            let g = f.push(c);
            assert forall|i: int, j: int| 0 <= i < g.len() && 0 <= j < g.len() && i != j implies g[i] != g[j] by {
                if i < f.len() && j < f.len() {
                } else if i == f.len() {
                    assert(f.contains(g[j]));
                } else {
                    assert(f.contains(g[i]));
                }
            }
        }
    }
}

/// In a sequence without duplicates, the elements equal to `x` are `x` once
/// if it occurs and nothing otherwise.
pub proof fn lemma_filter_single<A>(s: Seq<A>, p: spec_fn(A) -> bool, x: A)
    requires
        s.no_duplicates(),
        forall|c: A| #[trigger] p(c) == (c == x),
    ensures
        s.filter(p) == (if s.contains(x) { seq![x] } else { Seq::<A>::empty() }),
    decreases s.len(),
{
    reveal(Seq::filter);
    if s.len() == 0 {
        assert(s.filter(p) =~= Seq::<A>::empty());
    } else {
        let r = s.drop_last();
        let c = s.last();
        assert(r.no_duplicates());
        lemma_filter_single(r, p, x);
        lemma_last_split(s);
        if c == x {
            if r.contains(x) {
                let i = choose|i: int| 0 <= i < r.len() && r[i] == x;
                assert(s[i] == s[s.len() - 1]);
            }
            assert(s.filter(p) =~= seq![x]);
        }
    }
}

/// Filtering a strictly increasing sequence keeps it strictly increasing.
pub proof fn lemma_filter_increasing(s: Seq<usize>, p: spec_fn(usize) -> bool)
    requires
        forall|i: int, j: int| 0 <= i < j < s.len() ==> s[i] < s[j],
    ensures
        forall|i: int, j: int| 0 <= i < j < s.filter(p).len() ==> s.filter(p)[i] < s.filter(p)[j],
    decreases s.len(),
{
    reveal(Seq::filter);
    if s.len() > 0 {
        let r = s.drop_last();
        lemma_filter_increasing(r, p);
        let f = r.filter(p);
        if p(s.last()) {
            assert forall|i: int| 0 <= i < f.len() implies f[i] < s.last() by {
                assert(f.contains(f[i]));
                r.lemma_filter_contains_rev(p, f[i]);
                let k = choose|k: int| 0 <= k < r.len() && r[k] == f[i];
                assert(s[k] == r[k]);
            }
        }
    }
}

/// Lemma on the last element of a non-empty sequence.
pub proof fn lemma_last_split<A>(s: Seq<A>)
    requires
        s.len() > 0,
    ensures
        s == s.drop_last().push(s.last()),
{
    assert(s =~= s.drop_last().push(s.last()));
}

} // verus!
