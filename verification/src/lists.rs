//! Sequences that are filtered.

use vstd::prelude::*;

verus! {

/// Filtering keeps up with one more element.
pub proof fn lemma_filter_step<A>(s: Seq<A>, i: int, keep: spec_fn(A) -> bool)
    requires
        0 <= i < s.len(),
    ensures
        s.take(i + 1).filter(keep) == if keep(s[i]) {
            s.take(i).filter(keep).push(s[i])
        } else {
            s.take(i).filter(keep)
        },
{
    reveal(Seq::filter);
    assert(s.take(i + 1).drop_last() =~= s.take(i));
}

/// What is left after filtering was there before, and what was there and fits is left.
pub proof fn lemma_filter_members<A>(s: Seq<A>, keep: spec_fn(A) -> bool)
    ensures
        forall|x: A| #[trigger] s.filter(keep).contains(x) <==> s.contains(x) && keep(x),
    decreases s.len(),
{
    reveal(Seq::filter);
    if s.len() > 0 {
        let rest = s.drop_last();
        lemma_filter_members(rest, keep);
        assert(s =~= rest.push(s.last()));
        assert forall|x: A| #[trigger] s.filter(keep).contains(x) <==> s.contains(x) && keep(x) by {
            if s.contains(x) && x != s.last() {
                let i = choose|i: int| 0 <= i < s.len() && s[i] == x;
                assert(rest[i] == x);
            }
            if rest.contains(x) {
                let i = choose|i: int| 0 <= i < rest.len() && rest[i] == x;
                assert(s[i] == x);
            }
            assert(s.contains(s.last())) by {
                assert(s[s.len() - 1] == s.last());
            }
            if keep(s.last()) {
                let out = rest.filter(keep).push(s.last());
                assert(s.filter(keep) == out);
                if out.contains(x) && x != s.last() {
                    let i = choose|i: int| 0 <= i < out.len() && out[i] == x;
                    assert(rest.filter(keep)[i] == x);
                }
                if rest.filter(keep).contains(x) {
                    let i = choose|i: int| 0 <= i < rest.filter(keep).len() && rest.filter(keep)[i] == x;
                    assert(out[i] == x);
                }
                assert(out[out.len() - 1] == s.last());
            }
        }
    } else {
        assert forall|x: A| #[trigger] s.filter(keep).contains(x) <==> s.contains(x) && keep(x) by {}
    }
}

/// Filtering makes no duplicates.
pub proof fn lemma_filter_no_duplicates<A>(s: Seq<A>, keep: spec_fn(A) -> bool)
    requires
        s.no_duplicates(),
    ensures
        s.filter(keep).no_duplicates(),
    decreases s.len(),
{
    reveal(Seq::filter);
    if s.len() > 0 {
        let rest = s.drop_last();
        lemma_filter_no_duplicates(rest, keep);
        lemma_filter_members(rest, keep);
        if rest.filter(keep).contains(s.last()) {
            let i = choose|i: int| 0 <= i < rest.len() && rest[i] == s.last();
            assert(s[i] == s[s.len() - 1]);
        }
    }
}

/// Filtering by what holds of all elements changes nothing.
pub proof fn lemma_filter_all<A>(s: Seq<A>, keep: spec_fn(A) -> bool)
    requires
        forall|i: int| 0 <= i < s.len() ==> keep(#[trigger] s[i]),
    ensures
        s.filter(keep) == s,
    decreases s.len(),
{
    reveal(Seq::filter);
    if s.len() > 0 {
        let rest = s.drop_last();
        assert forall|i: int| 0 <= i < rest.len() implies keep(#[trigger] rest[i]) by {
            assert(rest[i] == s[i]);
        }
        lemma_filter_all(rest, keep);
        assert(keep(s[s.len() - 1]));
        assert(rest.push(s.last()) =~= s);
    }
}

/// Filtering twice is filtering by both.
pub proof fn lemma_filter_twice<A>(
    s: Seq<A>,
    first: spec_fn(A) -> bool,
    second: spec_fn(A) -> bool,
    both: spec_fn(A) -> bool,
)
    requires
        forall|x: A| #[trigger] both(x) == (first(x) && second(x)),
    ensures
        s.filter(first).filter(second) == s.filter(both),
    decreases s.len(),
{
    reveal(Seq::filter);
    if s.len() > 0 {
        let rest = s.drop_last();
        lemma_filter_twice(rest, first, second, both);
        assert(both(s.last()) == (first(s.last()) && second(s.last())));
        if first(s.last()) {
            let kept = rest.filter(first).push(s.last());
            assert(kept.drop_last() =~= rest.filter(first));
        }
    }
}

} // verus!
