//! Facts about finite sequences that several modules share.

use vstd::prelude::*;

verus! {

/// The members of a sequence, each at the place of its first occurrence.
pub open spec fn distinct<A>(s: Seq<A>) -> Seq<A>
    decreases s.len(),
{
    if s.len() == 0 {
        s
    } else if s.drop_last().contains(s.last()) {
        distinct(s.drop_last())
    } else {
        distinct(s.drop_last()).push(s.last())
    }
}

pub proof fn lemma_distinct<A>(s: Seq<A>)
    ensures
        distinct(s).no_duplicates(),
        distinct(s).len() <= s.len(),
        forall|x: A| #[trigger] distinct(s).contains(x) <==> s.contains(x),
        s.len() > 0 ==> distinct(s).len() > 0,
    decreases s.len(),
{
    if s.len() > 0 {
        let t = s.drop_last();
        lemma_distinct(t);
        assert(s =~= t.push(s.last()));
        assert forall|x: A| #[trigger] distinct(s).contains(x) <==> s.contains(x) by {
            assert(distinct(t).contains(x) <==> t.contains(x));
            if s.contains(x) {
                let i = choose|i: int| 0 <= i < s.len() && s[i] == x;
                if i < t.len() {
                    assert(t[i] == x);
                }
            }
            if t.contains(x) {
                let i = choose|i: int| 0 <= i < t.len() && t[i] == x;
                assert(s[i] == x);
            }
            assert(s[s.len() - 1] == s.last());
            let d = distinct(s);
            if d.len() > distinct(t).len() {
                assert(d.last() == s.last());
                assert(d =~= distinct(t).push(s.last()));
                if d.contains(x) {
                    let i = choose|i: int| 0 <= i < d.len() && d[i] == x;
                    if i < distinct(t).len() {
                        assert(distinct(t)[i] == x);
                    }
                }
                if distinct(t).contains(x) {
                    let i = choose|i: int| 0 <= i < distinct(t).len() && distinct(t)[i] == x;
                    assert(d[i] == x);
                }
                if x == s.last() {
                    assert(d[d.len() - 1] == x);
                }
            }
        }
        if !t.contains(s.last()) {
            assert(!distinct(t).contains(s.last()));
        }
    }
}

/// What a filter keeps is what the sequence holds and the predicate accepts.
pub proof fn lemma_filter_members<A>(s: Seq<A>, p: spec_fn(A) -> bool)
    ensures
        forall|x: A| #[trigger] s.filter(p).contains(x) <==> s.contains(x) && p(x),
        s.filter(p).len() <= s.len(),
    decreases s.len(),
{
    reveal(Seq::filter);
    if s.len() > 0 {
        let t = s.drop_last();
        lemma_filter_members(t, p);
        assert(s =~= t.push(s.last()));
        assert forall|x: A| #[trigger] s.filter(p).contains(x) <==> s.contains(x) && p(x) by {
            assert(t.filter(p).contains(x) <==> t.contains(x) && p(x));
            if s.contains(x) {
                let i = choose|i: int| 0 <= i < s.len() && s[i] == x;
                if i < t.len() {
                    assert(t[i] == x);
                }
            }
            if t.contains(x) {
                let i = choose|i: int| 0 <= i < t.len() && t[i] == x;
                assert(s[i] == x);
            }
            assert(s[s.len() - 1] == s.last());
            if p(s.last()) {
                let f = s.filter(p);
                assert(f =~= t.filter(p).push(s.last()));
                if f.contains(x) {
                    let i = choose|i: int| 0 <= i < f.len() && f[i] == x;
                    if i < t.filter(p).len() {
                        assert(t.filter(p)[i] == x);
                    }
                }
                if t.filter(p).contains(x) {
                    let i = choose|i: int| 0 <= i < t.filter(p).len() && t.filter(p)[i] == x;
                    assert(f[i] == x);
                }
                if x == s.last() {
                    assert(f[f.len() - 1] == x);
                }
            }
        }
    }
}

/// A sequence from its end to its start.
pub open spec fn rev<A>(s: Seq<A>) -> Seq<A> {
    Seq::new(s.len(), |i: int| s[s.len() - 1 - i])
}

/// A list from its end to its start, so that its items can be taken off in order.
pub fn reversed<T>(list: Vec<T>) -> (r: Vec<T>)
    ensures
        r@ == rev(list@),
{
    let ghost all = list@;
    let mut rest = list;
    let mut r: Vec<T> = Vec::new();
    while rest.len() > 0
        invariant
            rest@ + rev(r@) == all,
        decreases rest@.len(),
    {
        let ghost r0 = rest@;
        let ghost p0 = r@;
        if let Some(x) = rest.pop() {
            r.push(x);
            proof {
                assert(rest@ + rev(r@) =~= r0 + rev(p0));
            }
        }
    }
    proof {
        assert(rev(r@) =~= all);
        assert(r@ =~= rev(all));
    }
    r
}

} // verus!
