use vstd::prelude::*;

verus! {

/// How many elements of `s` satisfy `p`.
pub open spec fn count_where<A>(s: Seq<A>, p: spec_fn(A) -> bool) -> nat
    decreases s.len(),
{
    if s.len() == 0 {
        0
    } else {
        count_where(s.drop_last(), p) + if p(s.last()) { 1nat } else { 0nat }
    }
}

pub open spec fn one_if(b: bool) -> int {
    if b { 1 } else { 0 }
}

pub proof fn lemma_count_push<A>(s: Seq<A>, p: spec_fn(A) -> bool, a: A)
    ensures
        count_where(s.push(a), p) == count_where(s, p) + one_if(p(a)),
{
    assert(s.push(a).drop_last() =~= s);
}

pub proof fn lemma_count_update<A>(s: Seq<A>, p: spec_fn(A) -> bool, i: int, a: A)
    requires
        0 <= i < s.len(),
    ensures
        count_where(s.update(i, a), p) == count_where(s, p) - one_if(p(s[i])) + one_if(p(a)),
    decreases s.len(),
{
    let t = s.update(i, a);
    if i == s.len() - 1 {
        assert(t.drop_last() =~= s.drop_last());
    } else {
        assert(t.drop_last() =~= s.drop_last().update(i, a));
        lemma_count_update(s.drop_last(), p, i, a);
    }
}

pub proof fn lemma_count_none<A>(s: Seq<A>, p: spec_fn(A) -> bool)
    requires
        forall|i: int| 0 <= i < s.len() ==> !p(#[trigger] s[i]),
    ensures
        count_where(s, p) == 0,
    decreases s.len(),
{
    if s.len() > 0 {
        lemma_count_none(s.drop_last(), p);
    }
}

/// Where every element that satisfies `p` satisfies `q`, `p` counts no more
/// than `q`, and strictly less as soon as one element satisfies `q` alone.
pub proof fn lemma_count_mono<A>(s: Seq<A>, p: spec_fn(A) -> bool, q: spec_fn(A) -> bool)
    requires
        forall|i: int| 0 <= i < s.len() && p(#[trigger] s[i]) ==> q(s[i]),
    ensures
        count_where(s, p) <= count_where(s, q),
        (exists|i: int| 0 <= i < s.len() && q(#[trigger] s[i]) && !p(s[i])) ==> count_where(s, p)
            < count_where(s, q),
    decreases s.len(),
{
    if s.len() > 0 {
        let d = s.drop_last();
        assert forall|i: int| 0 <= i < d.len() && p(#[trigger] d[i]) implies q(d[i]) by {
            assert(d[i] == s[i]);
        }
        lemma_count_mono(d, p, q);
        if exists|i: int| 0 <= i < s.len() && q(#[trigger] s[i]) && !p(s[i]) {
            let i = choose|i: int| 0 <= i < s.len() && q(#[trigger] s[i]) && !p(s[i]);
            if i < d.len() {
                assert(d[i] == s[i]);
            }
        }
    }
}

/// Two sequences of one length whose elements answer their predicates alike
/// at each position count alike.
pub proof fn lemma_count_congruent<A, B>(
    s: Seq<A>,
    p: spec_fn(A) -> bool,
    t: Seq<B>,
    q: spec_fn(B) -> bool,
)
    requires
        s.len() == t.len(),
        forall|i: int| 0 <= i < s.len() ==> p(#[trigger] s[i]) == q(t[i]),
    ensures
        count_where(s, p) == count_where(t, q),
    decreases s.len(),
{
    if s.len() > 0 {
        let (ds, dt) = (s.drop_last(), t.drop_last());
        assert forall|i: int| 0 <= i < ds.len() implies p(#[trigger] ds[i]) == q(dt[i]) by {
            assert(ds[i] == s[i] && dt[i] == t[i]);
        }
        lemma_count_congruent(ds, p, dt, q);
    }
}

pub proof fn lemma_count_le_len<A>(s: Seq<A>, p: spec_fn(A) -> bool)
    ensures
        count_where(s, p) <= s.len(),
    decreases s.len(),
{
    if s.len() > 0 {
        lemma_count_le_len(s.drop_last(), p);
    }
}

} // verus!
