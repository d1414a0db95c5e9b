use vstd::prelude::*;

verus! {

use crate::SCALE;
use crate::model::{LanguageView, sum_lines, sum_weighted};
use vstd::arithmetic::div_mod::{
    lemma_fundamental_div_mod,
    lemma_mod_division_less_than_divisor,
    lemma_mod_bound,
    lemma_div_is_ordered,
    lemma_div_by_multiple,
};
use vstd::arithmetic::mul::{
    lemma_mul_inequality,
    lemma_mul_strict_inequality,
    lemma_mul_is_commutative,
    lemma_mul_is_distributive_add,
    lemma_mul_is_distributive_add_other_way,
    lemma_mul_is_distributive_sub,
    lemma_mul_nonnegative,
    lemma_mul_upper_bound,
    lemma_mul_strict_inequality_converse,
    lemma_mul_inequality_converse,
};

/// The nano-star weight a repository with `stars` stars gives one of its
/// languages: the repository's stars, scaled to nano-stars, apportioned by
/// the language's share of the repository's `total` lines, rounded down.
pub open spec fn weight_value(stars: int, lines: int, total: int) -> int {
    (stars * (SCALE as int) * lines) / total
}

/// The rounding remainder that `weight_value` drops.
pub open spec fn weight_rem(stars: int, lines: int, total: int) -> int {
    (stars * (SCALE as int) * lines) % total
}

/// The rounding remainders dropped over a whole language list.
pub open spec fn sum_rems(stars: int, langs: Seq<LanguageView>, total: int) -> int
    decreases langs.len(),
{
    if langs.len() == 0 {
        0
    } else {
        sum_rems(stars, langs.drop_last(), total) + weight_rem(stars, langs.last().lines, total)
    }
}

/// Computes `weight_value` on machine integers, free of overflow.
pub fn weighted_stars(stars: u32, lines: u64, total: u128) -> (r: u128)
    requires
        0 < total,
        lines as int <= total as int,
    ensures
        r as int == weight_value(stars as int, lines as int, total as int),
        r as int <= stars as int * (SCALE as int),
{
    proof {
        lemma_mul_upper_bound(stars as int, u32::MAX as int, SCALE as int, SCALE as int);
        lemma_mul_nonnegative(stars as int, SCALE as int);
        lemma_mul_upper_bound(
            stars as int * (SCALE as int),
            u32::MAX as int * (SCALE as int),
            lines as int,
            u64::MAX as int,
        );
        lemma_mul_nonnegative(stars as int * (SCALE as int), lines as int);
    }
    let scaled: u128 = (stars as u128) * (SCALE as u128);
    let num: u128 = scaled * (lines as u128);
    let r: u128 = num / total;
    proof {
        let s = stars as int;
        let sc = SCALE as int;
        let l = lines as int;
        let t = total as int;
        lemma_mul_inequality(l, t, s * sc);
        lemma_mul_is_commutative(l, s * sc);
        lemma_mul_is_commutative(t, s * sc);
        lemma_div_is_ordered(s * sc * l, s * sc * t, t);
        lemma_div_by_multiple(s * sc, t);
    }
    r
}

/// The division identity behind the weighted distribution: the weights of a
/// language list, multiplied back by the total line count, fall short of the
/// scaled star count by exactly the dropped remainders, and each remainder
/// is less than `total`.
pub proof fn lemma_weighted_sum_identity(stars: int, langs: Seq<LanguageView>, total: int)
    requires
        0 < total,
        0 <= stars,
        forall|i: int|
            0 <= i < langs.len() ==> (#[trigger] langs[i]).stars == weight_value(
                stars,
                langs[i].lines,
                total,
            ) && 0 <= langs[i].lines,
    ensures
        sum_weighted(langs) * total == stars * (SCALE as int) * sum_lines(langs) - sum_rems(
            stars,
            langs,
            total,
        ),
        0 <= sum_rems(stars, langs, total),
        sum_rems(stars, langs, total) <= (total - 1) * langs.len(),
    decreases langs.len(),
{
    let sc = SCALE as int;
    if langs.len() == 0 {
        assert(sum_weighted(langs) * total == 0) by {
            lemma_mul_is_commutative(0, total);
        }
        assert(stars * sc * 0 == 0) by {
            lemma_mul_is_commutative(stars * sc, 0);
        }
        assert((total - 1) * 0 == 0) by {
            lemma_mul_is_commutative(total - 1, 0);
        }
    } else {
        let dl = langs.drop_last();
        let last = langs.last();
        lemma_weighted_sum_identity(stars, dl, total);
        let x = stars * sc * last.lines;
        lemma_mul_nonnegative(stars, sc);
        lemma_mul_nonnegative(stars * sc, last.lines);
        lemma_fundamental_div_mod(x, total);
        lemma_mod_bound(x, total);
        assert(last.stars == x / total);
        assert(x == total * (x / total) + weight_rem(stars, last.lines, total));
        // weights add one element at a time
        assert(sum_weighted(langs) == sum_weighted(dl) + last.stars);
        assert(sum_lines(langs) == sum_lines(dl) + last.lines);
        assert(sum_rems(stars, langs, total) == sum_rems(stars, dl, total) + weight_rem(
            stars,
            last.lines,
            total,
        ));
        assert((sum_weighted(dl) + last.stars) * total == sum_weighted(dl) * total + last.stars
            * total) by {
            lemma_mul_is_distributive_add_other_way(total, sum_weighted(dl), last.stars);
        }
        assert(last.stars * total == x - weight_rem(stars, last.lines, total)) by {
            lemma_mul_is_commutative(last.stars, total);
        }
        assert(stars * sc * (sum_lines(dl) + last.lines) == stars * sc * sum_lines(dl) + x) by {
            lemma_mul_is_distributive_add(stars * sc, sum_lines(dl), last.lines);
        }
        assert((total - 1) * (langs.len() - 1) + (total - 1) == (total - 1) * langs.len()) by {
            lemma_mul_is_distributive_sub(total - 1, langs.len() as int, 1);
        }
        assert(weight_rem(stars, last.lines, total) <= total - 1) by {
            lemma_mod_division_less_than_divisor(x, total);
        }
    }
}

/// The weighted distribution adds up: when a repository's
/// total line count is positive and each language carries its proportional
/// floor-rounded share, the shares sum to the repository's scaled star
/// count, short by less than one nano-star per language.
pub proof fn lemma_weighted_sum_bounds(stars: int, langs: Seq<LanguageView>, total: int)
    requires
        0 < total,
        0 <= stars,
        total == sum_lines(langs),
        forall|i: int|
            0 <= i < langs.len() ==> (#[trigger] langs[i]).stars == weight_value(
                stars,
                langs[i].lines,
                total,
            ) && 0 <= langs[i].lines,
    ensures
        sum_weighted(langs) <= stars * (SCALE as int),
        stars * (SCALE as int) - langs.len() < sum_weighted(langs),
{
    let sc = SCALE as int;
    let w = sum_weighted(langs);
    let n = langs.len() as int;
    lemma_weighted_sum_identity(stars, langs, total);
    let r = sum_rems(stars, langs, total);
    assert(w * total == stars * sc * total - r);
    // upper bound: total * (stars * SCALE - w) == r >= 0
    assert(total * (stars * sc - w) == r) by {
        lemma_mul_is_distributive_sub(total, stars * sc, w);
        lemma_mul_is_commutative(total, stars * sc);
        lemma_mul_is_commutative(total, w);
    }
    if w > stars * sc {
        lemma_mul_strict_inequality(stars * sc - w, 0, total);
        lemma_mul_is_commutative(stars * sc - w, total);
        lemma_mul_is_commutative(0, total);
        assert(false);
    }
    // lower bound: total * (stars * SCALE - w) <= (total - 1) * n < total * n
    assert((total - 1) * n <= total * n - n) by {
        lemma_mul_is_commutative(total - 1, n);
        lemma_mul_is_distributive_sub(n, total, 1);
        lemma_mul_is_commutative(n, total);
    }
    if stars * sc - w >= n {
        lemma_mul_inequality(n, stars * sc - w, total);
        lemma_mul_is_commutative(n, total);
        lemma_mul_is_commutative(stars * sc - w, total);
        assert(total * n <= total * (stars * sc - w));
        assert(false);
    }
}

/// A prefix of nonnegative weights never exceeds the whole sum.
pub proof fn lemma_sum_weighted_take_le(langs: Seq<LanguageView>, k: int)
    requires
        0 <= k <= langs.len(),
        forall|i: int| 0 <= i < langs.len() ==> 0 <= (#[trigger] langs[i]).stars,
    ensures
        sum_weighted(langs.take(k)) <= sum_weighted(langs),
    decreases langs.len() - k,
{
    if k == langs.len() {
        assert(langs.take(k) =~= langs);
    } else {
        lemma_sum_weighted_take_le(langs, k + 1);
        assert(langs.take(k + 1).drop_last() =~= langs.take(k));
        assert(langs.take(k + 1).last() == langs[k]);
        assert(sum_weighted(langs.take(k + 1)) == sum_weighted(langs.take(k)) + langs[k].stars);
    }
}

} // verus!

verus! {

use crate::model::RepositoryView;

/// How the weight calculation transforms one repository's language list:
/// everything but the weights is kept, and each weight becomes the
/// repository's proportional share, or zero when the repository reports no
/// lines at all.
pub open spec fn weighted_langs(stars: int, olds: Seq<LanguageView>, news: Seq<LanguageView>) -> bool {
    let total = sum_lines(olds);
    &&& news.len() == olds.len()
    &&& forall|j: int|
        0 <= j < news.len() ==> {
            let o = olds[j];
            let l = #[trigger] news[j];
            &&& l.name == o.name
            &&& l.color == o.color
            &&& l.lines == o.lines
            &&& l.source == o.source
            &&& l.stars == if total > 0 {
                weight_value(stars, o.lines, total)
            } else {
                0
            }
        }
}

/// How the weight calculation transforms the whole repository list.
pub open spec fn weighted_repos(olds: Seq<RepositoryView>, news: Seq<RepositoryView>) -> bool {
    &&& news.len() == olds.len()
    &&& forall|i: int|
        0 <= i < news.len() ==> {
            let o = olds[i];
            let r = #[trigger] news[i];
            &&& r.name == o.name
            &&& r.stars == o.stars
            &&& weighted_langs(o.stars, o.languages, r.languages)
        }
}

} // verus!
