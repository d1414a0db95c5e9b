use vstd::prelude::*;

verus! {

use crate::model::{
    Language, LanguageView, Partial, PartialView, language_views, lemma_sum_partials_remove,
    lemma_sum_weighted_remove, partial_views, sum_partials, sum_weighted,
};

broadcast use vstd::seq_lib::group_to_multiset_ensures;

/// Star weights never increase along the sequence.
pub open spec fn sorted_desc_partials(s: Seq<PartialView>) -> bool {
    forall|a: int, b: int| 0 <= a < b < s.len() ==> s[a].stars >= s[b].stars
}

/// Star totals never increase along the sequence.
pub open spec fn sorted_desc_languages(s: Seq<LanguageView>) -> bool {
    forall|a: int, b: int| 0 <= a < b < s.len() ==> s[a].stars >= s[b].stars
}

/// The index of a record with the highest star weight among `v`.
fn max_partial_index(v: &Vec<Partial>) -> (m: usize)
    requires
        v@.len() > 0,
    ensures
        0 <= m < v@.len(),
        forall|k: int| 0 <= k < v@.len() ==> (#[trigger] v@[k])@.stars <= v@[m as int]@.stars,
{
    let mut m: usize = 0;
    let mut k: usize = 1;
    while k < v.len()
        invariant
            0 <= m < k <= v@.len(),
            forall|q: int| 0 <= q < k ==> (#[trigger] v@[q])@.stars <= v@[m as int]@.stars,
        decreases v@.len() - k,
    {
        if v[k].stars > v[m].stars {
            m = k;
        }
        k = k + 1;
    }
    m
}

/// The index of a record with the highest star total among `v`.
fn max_language_index(v: &Vec<Language>) -> (m: usize)
    requires
        v@.len() > 0,
    ensures
        0 <= m < v@.len(),
        forall|k: int| 0 <= k < v@.len() ==> (#[trigger] v@[k])@.stars <= v@[m as int]@.stars,
{
    let mut m: usize = 0;
    let mut k: usize = 1;
    while k < v.len()
        invariant
            0 <= m < k <= v@.len(),
            forall|q: int| 0 <= q < k ==> (#[trigger] v@[q])@.stars <= v@[m as int]@.stars,
        decreases v@.len() - k,
    {
        if v[k].stars > v[m].stars {
            m = k;
        }
        k = k + 1;
    }
    m
}

/// Sorts a source breakdown by descending star weight.  The records are
/// the same, only reordered: the view multiset and the total are kept.
pub fn sort_partials(v: &mut Vec<Partial>)
    ensures
        sorted_desc_partials(partial_views(final(v)@)),
        partial_views(final(v)@).to_multiset() == partial_views(old(v)@).to_multiset(),
        sum_partials(partial_views(final(v)@)) == sum_partials(partial_views(old(v)@)),
        final(v)@.len() == old(v)@.len(),
{
    let ghost orig = partial_views(v@);
    let mut out: Vec<Partial> = Vec::new();
    assert(partial_views(out@) =~= Seq::<PartialView>::empty());
    assert(partial_views(out@).to_multiset().add(partial_views(v@).to_multiset())
        =~= orig.to_multiset());
    while v.len() > 0
        invariant
            sorted_desc_partials(partial_views(out@)),
            partial_views(out@).to_multiset().add(partial_views(v@).to_multiset())
                == orig.to_multiset(),
            sum_partials(partial_views(out@)) + sum_partials(partial_views(v@)) == sum_partials(
                orig,
            ),
            out@.len() + v@.len() == orig.len(),
            forall|a: int, b: int|
                0 <= a < out@.len() && 0 <= b < v@.len() ==> (#[trigger] v@[b])@.stars
                    <= (#[trigger] out@[a])@.stars,
        decreases v@.len(),
    {
        let m = max_partial_index(v);
        let ghost pre_out = partial_views(out@);
        let ghost pre_v = partial_views(v@);
        let x = Partial::clone(&v[m]);
        assert(x@ == pre_v[m as int]);
        out.push(x);
        let removed = v.remove(m);
        proof {
            assert(partial_views(out@) =~= pre_out.push(pre_v[m as int]));
            assert(partial_views(v@) =~= pre_v.remove(m as int));
            lemma_sum_partials_remove(pre_v, m as int);
            assert(pre_out.push(pre_v[m as int]).drop_last() =~= pre_out);
            assert(pre_out.push(pre_v[m as int]).last() == pre_v[m as int]);
            assert(sum_partials(partial_views(out@)) == sum_partials(pre_out) + pre_v[
                m as int
            ].stars);
            assert(partial_views(out@).to_multiset() =~= pre_out.to_multiset().insert(
                pre_v[m as int],
            ));
            assert(partial_views(v@).to_multiset() =~= pre_v.to_multiset().remove(
                pre_v[m as int],
            ));
            assert(pre_v.to_multiset().contains(pre_v[m as int]));
            assert(partial_views(out@).to_multiset().add(partial_views(v@).to_multiset())
                =~= orig.to_multiset());
        }
    }
    proof {
        assert(partial_views(v@) =~= Seq::<PartialView>::empty());
        assert(partial_views(out@).to_multiset() =~= orig.to_multiset());
    }
    *v = out;
}

/// Sorts aggregated languages by descending star total.  The records are
/// the same, only reordered: the view multiset and the total are kept.
pub fn sort_languages(v: &mut Vec<Language>)
    ensures
        sorted_desc_languages(language_views(final(v)@)),
        language_views(final(v)@).to_multiset() == language_views(old(v)@).to_multiset(),
        sum_weighted(language_views(final(v)@)) == sum_weighted(language_views(old(v)@)),
        final(v)@.len() == old(v)@.len(),
{
    let ghost orig = language_views(v@);
    let mut out: Vec<Language> = Vec::new();
    assert(language_views(out@) =~= Seq::<LanguageView>::empty());
    assert(language_views(out@).to_multiset().add(language_views(v@).to_multiset())
        =~= orig.to_multiset());
    while v.len() > 0
        invariant
            sorted_desc_languages(language_views(out@)),
            language_views(out@).to_multiset().add(language_views(v@).to_multiset())
                == orig.to_multiset(),
            sum_weighted(language_views(out@)) + sum_weighted(language_views(v@)) == sum_weighted(
                orig,
            ),
            out@.len() + v@.len() == orig.len(),
            forall|a: int, b: int|
                0 <= a < out@.len() && 0 <= b < v@.len() ==> (#[trigger] v@[b])@.stars
                    <= (#[trigger] out@[a])@.stars,
        decreases v@.len(),
    {
        let m = max_language_index(v);
        let ghost pre_out = language_views(out@);
        let ghost pre_v = language_views(v@);
        let x = Language::clone(&v[m]);
        assert(x@ == pre_v[m as int]);
        out.push(x);
        let removed = v.remove(m);
        proof {
            assert(language_views(out@) =~= pre_out.push(pre_v[m as int]));
            assert(language_views(v@) =~= pre_v.remove(m as int));
            lemma_sum_weighted_remove(pre_v, m as int);
            assert(pre_out.push(pre_v[m as int]).drop_last() =~= pre_out);
            assert(pre_out.push(pre_v[m as int]).last() == pre_v[m as int]);
            assert(sum_weighted(language_views(out@)) == sum_weighted(pre_out) + pre_v[
                m as int
            ].stars);
            assert(language_views(out@).to_multiset() =~= pre_out.to_multiset().insert(
                pre_v[m as int],
            ));
            assert(language_views(v@).to_multiset() =~= pre_v.to_multiset().remove(
                pre_v[m as int],
            ));
            assert(pre_v.to_multiset().contains(pre_v[m as int]));
            assert(language_views(out@).to_multiset().add(language_views(v@).to_multiset())
                =~= orig.to_multiset());
        }
    }
    proof {
        assert(language_views(v@) =~= Seq::<LanguageView>::empty());
        assert(language_views(out@).to_multiset() =~= orig.to_multiset());
    }
    *v = out;
}

} // verus!
