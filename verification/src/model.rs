use vstd::prelude::*;

verus! {

use crate::SCALE;

/// One repository's contribution to one aggregated language.
/// `stars` counts nano-stars (see [`crate::SCALE`]).
pub struct Partial {
    pub repository: String,
    pub stars: u128,
}

/// A language figure.  Before aggregation it describes one repository's use of
/// the language (`lines` of code, `stars` set by the weight calculation);
/// after aggregation it is the account-wide total with its `source`
/// breakdown.  `stars` counts nano-stars.
pub struct Language {
    pub name: String,
    pub stars: u128,
    pub color: String,
    pub source: Vec<Partial>,
    pub lines: u64,
}

/// One repository with its per-language line counts.
pub struct Repository {
    pub name: String,
    pub languages: Vec<Language>,
    pub stars: u32,
}

/// Mathematical image of a [`Partial`].
#[verifier::ext_equal]
pub struct PartialView {
    pub repository: Seq<char>,
    pub stars: int,
}

/// Mathematical image of a [`Language`].
#[verifier::ext_equal]
pub struct LanguageView {
    pub name: Seq<char>,
    pub stars: int,
    pub color: Seq<char>,
    pub source: Seq<PartialView>,
    pub lines: int,
}

/// Mathematical image of a [`Repository`].
#[verifier::ext_equal]
pub struct RepositoryView {
    pub name: Seq<char>,
    pub languages: Seq<LanguageView>,
    pub stars: int,
}

impl View for Partial {
    type V = PartialView;

    open spec fn view(&self) -> PartialView {
        PartialView { repository: self.repository@, stars: self.stars as int }
    }
}

impl View for Language {
    type V = LanguageView;

    open spec fn view(&self) -> LanguageView {
        LanguageView {
            name: self.name@,
            stars: self.stars as int,
            color: self.color@,
            source: partial_views(self.source@),
            lines: self.lines as int,
        }
    }
}

impl View for Repository {
    type V = RepositoryView;

    open spec fn view(&self) -> RepositoryView {
        RepositoryView {
            name: self.name@,
            languages: language_views(self.languages@),
            stars: self.stars as int,
        }
    }
}

/// The views of a sequence of [`Partial`] records.
pub open spec fn partial_views(s: Seq<Partial>) -> Seq<PartialView> {
    s.map_values(|p: Partial| p@)
}

/// The views of a sequence of [`Language`] records.
pub open spec fn language_views(s: Seq<Language>) -> Seq<LanguageView> {
    s.map_values(|l: Language| l@)
}

/// The views of a sequence of [`Repository`] records.
pub open spec fn repository_views(s: Seq<Repository>) -> Seq<RepositoryView> {
    s.map_values(|r: Repository| r@)
}

/// Total line count of a repository's language usages.
pub open spec fn sum_lines(langs: Seq<LanguageView>) -> int
    decreases langs.len(),
{
    if langs.len() == 0 {
        0
    } else {
        sum_lines(langs.drop_last()) + langs.last().lines
    }
}

/// Total star weight held by a sequence of language figures.
pub open spec fn sum_weighted(langs: Seq<LanguageView>) -> int
    decreases langs.len(),
{
    if langs.len() == 0 {
        0
    } else {
        sum_weighted(langs.drop_last()) + langs.last().stars
    }
}

/// Total star weight of a source breakdown.
pub open spec fn sum_partials(ps: Seq<PartialView>) -> int
    decreases ps.len(),
{
    if ps.len() == 0 {
        0
    } else {
        sum_partials(ps.drop_last()) + ps.last().stars
    }
}

/// Total raw star count over a sequence of repositories.
pub open spec fn sum_repo_stars(repos: Seq<RepositoryView>) -> int
    decreases repos.len(),
{
    if repos.len() == 0 {
        0
    } else {
        sum_repo_stars(repos.drop_last()) + repos.last().stars
    }
}

/// The star weight one repository attributes to the language `name`.
pub open spec fn repo_lang_total(langs: Seq<LanguageView>, name: Seq<char>) -> int
    decreases langs.len(),
{
    if langs.len() == 0 {
        0
    } else {
        repo_lang_total(langs.drop_last(), name) + if langs.last().name == name {
            langs.last().stars
        } else {
            0
        }
    }
}

/// The star weight a whole account attributes to the language `name`.
pub open spec fn lang_total(repos: Seq<RepositoryView>, name: Seq<char>) -> int
    decreases repos.len(),
{
    if repos.len() == 0 {
        0
    } else {
        lang_total(repos.drop_last(), name) + repo_lang_total(repos.last().languages, name)
    }
}

/// The strictly positive contributions one repository makes to the language
/// `name`, newest usage last.
pub open spec fn repo_contributions(repo_name: Seq<char>, langs: Seq<LanguageView>, name: Seq<char>) -> Seq<PartialView>
    decreases langs.len(),
{
    if langs.len() == 0 {
        Seq::empty()
    } else {
        repo_contributions(repo_name, langs.drop_last(), name) + if langs.last().name == name
            && langs.last().stars > 0 {
            seq![PartialView { repository: repo_name, stars: langs.last().stars }]
        } else {
            Seq::empty()
        }
    }
}

/// All strictly positive contributions an account makes to the language
/// `name`, in repository order.
pub open spec fn contributions(repos: Seq<RepositoryView>, name: Seq<char>) -> Seq<PartialView>
    decreases repos.len(),
{
    if repos.len() == 0 {
        Seq::empty()
    } else {
        contributions(repos.drop_last(), name) + repo_contributions(
            repos.last().name,
            repos.last().languages,
            name,
        )
    }
}

/// Whether some repository reports a usage of the language `name`.
pub open spec fn has_lang(repos: Seq<RepositoryView>, name: Seq<char>) -> bool {
    exists|i: int, j: int|
        0 <= i < repos.len() && 0 <= j < repos[i].languages.len() && repos[i].languages[j].name
            == name
}

/// Whether `langs` reports a usage of the language `name`.
pub open spec fn langs_have(langs: Seq<LanguageView>, name: Seq<char>) -> bool {
    exists|j: int| 0 <= j < langs.len() && langs[j].name == name
}

/// The color of the first usage of `name` within one repository's languages.
pub open spec fn first_color_in(langs: Seq<LanguageView>, name: Seq<char>) -> Seq<char>
    decreases langs.len(),
{
    if langs.len() == 0 {
        Seq::empty()
    } else if langs.first().name == name {
        langs.first().color
    } else {
        first_color_in(langs.drop_first(), name)
    }
}

/// The color of the first-seen usage of `name` across the account, in
/// repository order; this is the color the aggregation records.
pub open spec fn first_color(repos: Seq<RepositoryView>, name: Seq<char>) -> Seq<char>
    decreases repos.len(),
{
    if repos.len() == 0 {
        Seq::empty()
    } else if langs_have(repos.first().languages, name) {
        first_color_in(repos.first().languages, name)
    } else {
        first_color(repos.drop_first(), name)
    }
}

/// One more element extends each running total by that element.
pub proof fn lemma_sum_lines_take_succ(s: Seq<LanguageView>, j: int)
    requires
        0 <= j < s.len(),
    ensures
        sum_lines(s.take(j + 1)) == sum_lines(s.take(j)) + s[j].lines,
{
    assert(s.take(j + 1).drop_last() =~= s.take(j));
    assert(s.take(j + 1).last() == s[j]);
}

/// One more element extends each running total by that element.
pub proof fn lemma_sum_weighted_take_succ(s: Seq<LanguageView>, j: int)
    requires
        0 <= j < s.len(),
    ensures
        sum_weighted(s.take(j + 1)) == sum_weighted(s.take(j)) + s[j].stars,
{
    assert(s.take(j + 1).drop_last() =~= s.take(j));
    assert(s.take(j + 1).last() == s[j]);
}

/// One more repository extends the account total by its stars.
pub proof fn lemma_sum_repo_stars_take_succ(s: Seq<RepositoryView>, i: int)
    requires
        0 <= i < s.len(),
    ensures
        sum_repo_stars(s.take(i + 1)) == sum_repo_stars(s.take(i)) + s[i].stars,
{
    assert(s.take(i + 1).drop_last() =~= s.take(i));
    assert(s.take(i + 1).last() == s[i]);
}

/// One more usage extends a repository's per-language total by its weight
/// exactly when the names match.
pub proof fn lemma_repo_lang_total_take_succ(s: Seq<LanguageView>, j: int, n: Seq<char>)
    requires
        0 <= j < s.len(),
    ensures
        repo_lang_total(s.take(j + 1), n) == repo_lang_total(s.take(j), n) + if s[j].name == n {
            s[j].stars
        } else {
            0
        },
{
    assert(s.take(j + 1).drop_last() =~= s.take(j));
    assert(s.take(j + 1).last() == s[j]);
}

/// One more usage appends a contribution exactly when the names match and
/// the weight is strictly positive.
pub proof fn lemma_repo_contributions_take_succ(rn: Seq<char>, s: Seq<LanguageView>, j: int, n: Seq<char>)
    requires
        0 <= j < s.len(),
    ensures
        s[j].name == n && s[j].stars > 0 ==> repo_contributions(rn, s.take(j + 1), n)
            == repo_contributions(rn, s.take(j), n) + seq![
            PartialView { repository: rn, stars: s[j].stars },
        ],
        !(s[j].name == n && s[j].stars > 0) ==> repo_contributions(rn, s.take(j + 1), n)
            == repo_contributions(rn, s.take(j), n),
{
    assert(s.take(j + 1).drop_last() =~= s.take(j));
    assert(s.take(j + 1).last() == s[j]);
    if !(s[j].name == n && s[j].stars > 0) {
        assert(repo_contributions(rn, s.take(j), n) + Seq::<PartialView>::empty()
            =~= repo_contributions(rn, s.take(j), n));
    }
}

/// One more repository extends the account-level totals by that
/// repository's own figures.
pub proof fn lemma_lang_total_push(a: Seq<RepositoryView>, r: RepositoryView, n: Seq<char>)
    ensures
        lang_total(a.push(r), n) == lang_total(a, n) + repo_lang_total(r.languages, n),
        contributions(a.push(r), n) == contributions(a, n) + repo_contributions(
            r.name,
            r.languages,
            n,
        ),
{
    assert(a.push(r).drop_last() =~= a);
    assert(a.push(r).last() == r);
}

/// A language no repository reports has no total, no contributions, and no
/// account-level usage.
pub proof fn lemma_lang_total_absent(s: Seq<RepositoryView>, n: Seq<char>)
    requires
        !has_lang(s, n),
    ensures
        lang_total(s, n) == 0,
        contributions(s, n) == Seq::<PartialView>::empty(),
    decreases s.len(),
{
    if s.len() > 0 {
        let dl = s.drop_last();
        assert(!has_lang(dl, n)) by {
            if has_lang(dl, n) {
                let (i, j) = choose|i: int, j: int|
                    0 <= i < dl.len() && 0 <= j < dl[i].languages.len() && dl[i].languages[j].name
                        == n;
                assert(s[i].languages[j].name == n);
            }
        }
        lemma_lang_total_absent(dl, n);
        assert(!langs_have(s.last().languages, n)) by {
            if langs_have(s.last().languages, n) {
                let j = choose|j: int|
                    0 <= j < s.last().languages.len() && s.last().languages[j].name == n;
                assert(s[s.len() - 1].languages[j].name == n);
            }
        }
        lemma_repo_lang_total_absent(s.last().name, s.last().languages, n);
        assert(contributions(s, n) =~= Seq::<PartialView>::empty());
    }
}

/// A language a repository does not report gets nothing from it.
pub proof fn lemma_repo_lang_total_absent(rn: Seq<char>, langs: Seq<LanguageView>, n: Seq<char>)
    requires
        !langs_have(langs, n),
    ensures
        repo_lang_total(langs, n) == 0,
        repo_contributions(rn, langs, n) == Seq::<PartialView>::empty(),
    decreases langs.len(),
{
    if langs.len() > 0 {
        let dl = langs.drop_last();
        assert(!langs_have(dl, n)) by {
            if langs_have(dl, n) {
                let j = choose|j: int| 0 <= j < dl.len() && dl[j].name == n;
                assert(langs[j].name == n);
            }
        }
        lemma_repo_lang_total_absent(rn, dl, n);
        assert(langs.last().name != n) by {
            if langs.last().name == n {
                assert(langs[langs.len() - 1].name == n);
            }
        }
        assert(repo_contributions(rn, langs, n) =~= Seq::<PartialView>::empty());
    }
}

/// Sums of breakdowns concatenate.
pub proof fn lemma_sum_partials_concat(a: Seq<PartialView>, b: Seq<PartialView>)
    ensures
        sum_partials(a + b) == sum_partials(a) + sum_partials(b),
    decreases b.len(),
{
    if b.len() == 0 {
        assert(a + b =~= a);
    } else {
        lemma_sum_partials_concat(a, b.drop_last());
        assert((a + b).drop_last() =~= a + b.drop_last());
        assert((a + b).last() == b.last());
    }
}

/// The positive contributions to a language add up to exactly its total,
/// because the skipped entries carry no weight.
pub proof fn lemma_repo_contributions_sum(rn: Seq<char>, langs: Seq<LanguageView>, n: Seq<char>)
    requires
        forall|j: int| 0 <= j < langs.len() ==> 0 <= (#[trigger] langs[j]).stars,
    ensures
        sum_partials(repo_contributions(rn, langs, n)) == repo_lang_total(langs, n),
    decreases langs.len(),
{
    if langs.len() > 0 {
        let dl = langs.drop_last();
        assert(forall|j: int| 0 <= j < dl.len() ==> dl[j] == langs[j]);
        lemma_repo_contributions_sum(rn, dl, n);
        if langs.last().name == n && langs.last().stars > 0 {
            let single = seq![PartialView { repository: rn, stars: langs.last().stars }];
            lemma_sum_partials_concat(repo_contributions(rn, dl, n), single);
            assert(single.len() == 1);
            assert(single.drop_last() =~= Seq::<PartialView>::empty());
            assert(single.drop_last().len() == 0);
            assert(sum_partials(single.drop_last()) == 0);
            assert(single.last() == PartialView { repository: rn, stars: langs.last().stars });
            assert(sum_partials(single) == sum_partials(single.drop_last()) + single.last().stars);
            assert(sum_partials(single) == langs.last().stars);
        } else {
            assert(repo_contributions(rn, langs, n) =~= repo_contributions(rn, dl, n));
            assert(langs[langs.len() - 1].stars >= 0);
        }
    }
}

/// The positive contributions to a language add up to exactly its
/// account-level total.
pub proof fn lemma_contributions_sum(s: Seq<RepositoryView>, n: Seq<char>)
    requires
        forall|i: int, j: int|
            0 <= i < s.len() && 0 <= j < (#[trigger] s[i]).languages.len() ==> 0 <= (
            #[trigger] s[i].languages[j]).stars,
    ensures
        sum_partials(contributions(s, n)) == lang_total(s, n),
    decreases s.len(),
{
    if s.len() > 0 {
        let dl = s.drop_last();
        assert(forall|i: int, j: int|
            0 <= i < dl.len() && 0 <= j < (#[trigger] dl[i]).languages.len() ==> 0 <= (
            #[trigger] dl[i].languages[j]).stars) by {
            assert(forall|i: int| 0 <= i < dl.len() ==> dl[i] == s[i]);
        }
        lemma_contributions_sum(dl, n);
        assert(forall|j: int| 0 <= j < s.last().languages.len() ==> 0 <= (
        #[trigger] s.last().languages[j]).stars) by {
            assert(s.last() == s[s.len() - 1]);
        }
        lemma_repo_contributions_sum(s.last().name, s.last().languages, n);
        lemma_sum_partials_concat(
            contributions(dl, n),
            repo_contributions(s.last().name, s.last().languages, n),
        );
    }
}

/// Each nonnegative entry is at most the whole sum.
pub proof fn lemma_sum_weighted_elem_le(s: Seq<LanguageView>, k: int)
    requires
        0 <= k < s.len(),
        forall|i: int| 0 <= i < s.len() ==> 0 <= (#[trigger] s[i]).stars,
    ensures
        s[k].stars <= sum_weighted(s),
    decreases s.len(),
{
    if k == s.len() - 1 {
        lemma_sum_weighted_nonneg(s.drop_last());
    } else {
        lemma_sum_weighted_elem_le(s.drop_last(), k);
        assert(s.drop_last()[k] == s[k]);
        assert(s.last().stars >= 0);
    }
}

/// A sum of nonnegative entries is nonnegative.
pub proof fn lemma_sum_weighted_nonneg(s: Seq<LanguageView>)
    requires
        forall|i: int| 0 <= i < s.len() ==> 0 <= (#[trigger] s[i]).stars,
    ensures
        0 <= sum_weighted(s),
    decreases s.len(),
{
    if s.len() > 0 {
        lemma_sum_weighted_nonneg(s.drop_last());
        assert(s[s.len() - 1].stars >= 0);
    }
}

/// An account total over bounded repositories is bounded by count times
/// the bound.
pub proof fn lemma_sum_repo_stars_bound(s: Seq<RepositoryView>, bound: int)
    requires
        0 <= bound,
        forall|i: int| 0 <= i < s.len() ==> 0 <= (#[trigger] s[i]).stars <= bound,
    ensures
        0 <= sum_repo_stars(s) <= s.len() * bound,
    decreases s.len(),
{
    if s.len() == 0 {
        assert(s.len() * bound == 0) by {
            vstd::arithmetic::mul::lemma_mul_basics_3(bound);
        }
    } else {
        lemma_sum_repo_stars_bound(s.drop_last(), bound);
        assert(s[s.len() - 1].stars <= bound);
        assert((s.len() - 1) * bound + bound == s.len() * bound) by {
            vstd::arithmetic::mul::lemma_mul_is_distributive_sub_other_way(
                bound,
                s.len() as int,
                1,
            );
        }
    }
}

/// The weight carried by every language of every repository.
pub open spec fn total_weight(s: Seq<RepositoryView>) -> int
    decreases s.len(),
{
    if s.len() == 0 {
        0
    } else {
        total_weight(s.drop_last()) + sum_weighted(s.last().languages)
    }
}

/// One more repository extends the carried weight by its languages' sum.
pub proof fn lemma_total_weight_push(a: Seq<RepositoryView>, r: RepositoryView)
    ensures
        total_weight(a.push(r)) == total_weight(a) + sum_weighted(r.languages),
{
    assert(a.push(r).drop_last() =~= a);
    assert(a.push(r).last() == r);
}

/// When every repository's weights sum to at most its scaled stars, the
/// carried weight of the whole account is bounded by the scaled account
/// total.
pub proof fn lemma_total_weight_bound(s: Seq<RepositoryView>)
    requires
        forall|i: int|
            0 <= i < s.len() ==> sum_weighted((#[trigger] s[i]).languages) <= s[i].stars * (
            crate::SCALE as int),
    ensures
        total_weight(s) <= sum_repo_stars(s) * (crate::SCALE as int),
    decreases s.len(),
{
    let sc = crate::SCALE as int;
    if s.len() == 0 {
        assert(sum_repo_stars(s) * sc == 0) by {
            vstd::arithmetic::mul::lemma_mul_basics_4(sc);
        }
    } else {
        let dl = s.drop_last();
        assert(forall|i: int|
            0 <= i < dl.len() ==> sum_weighted((#[trigger] dl[i]).languages) <= dl[i].stars
                * sc) by {
            assert(forall|i: int| 0 <= i < dl.len() ==> dl[i] == s[i]);
        }
        lemma_total_weight_bound(dl);
        assert(s.last() == s[s.len() - 1]);
        assert((sum_repo_stars(dl) + s.last().stars) * sc == sum_repo_stars(dl) * sc
            + s.last().stars * sc) by {
            vstd::arithmetic::mul::lemma_mul_is_distributive_add_other_way(
                sc,
                sum_repo_stars(dl),
                s.last().stars,
            );
        }
    }
}

/// Account-level usage splits over one more repository.
pub proof fn lemma_has_lang_push(a: Seq<RepositoryView>, r: RepositoryView, n: Seq<char>)
    ensures
        has_lang(a.push(r), n) <==> (has_lang(a, n) || langs_have(r.languages, n)),
{
    let b = a.push(r);
    if has_lang(b, n) {
        let (i, j) = choose|i: int, j: int|
            0 <= i < b.len() && 0 <= j < b[i].languages.len() && b[i].languages[j].name == n;
        if i < a.len() {
            assert(a[i].languages[j].name == n);
        } else {
            assert(r.languages[j].name == n);
        }
    }
    if has_lang(a, n) {
        let (i, j) = choose|i: int, j: int|
            0 <= i < a.len() && 0 <= j < a[i].languages.len() && a[i].languages[j].name == n;
        assert(b[i].languages[j].name == n);
    }
    if langs_have(r.languages, n) {
        let j = choose|j: int| 0 <= j < r.languages.len() && r.languages[j].name == n;
        assert(b[a.len() as int].languages[j].name == n);
    }
}

/// Usage within a language list splits over one more usage.
pub proof fn lemma_langs_have_take_succ(s: Seq<LanguageView>, j: int, n: Seq<char>)
    requires
        0 <= j < s.len(),
    ensures
        langs_have(s.take(j + 1), n) <==> (langs_have(s.take(j), n) || s[j].name == n),
{
    let t1 = s.take(j + 1);
    let t0 = s.take(j);
    if langs_have(t1, n) {
        let k = choose|k: int| 0 <= k < t1.len() && t1[k].name == n;
        if k < j {
            assert(t0[k].name == n);
        } else {
            assert(s[j].name == n);
        }
    }
    if langs_have(t0, n) {
        let k = choose|k: int| 0 <= k < t0.len() && t0[k].name == n;
        assert(t1[k].name == n);
    }
    if s[j].name == n {
        assert(t1[j].name == n);
    }
}

/// A language list without the name yields the empty color.
pub proof fn lemma_first_color_in_absent(s: Seq<LanguageView>, n: Seq<char>)
    requires
        !langs_have(s, n),
    ensures
        first_color_in(s, n) == Seq::<char>::empty(),
    decreases s.len(),
{
    if s.len() > 0 {
        assert(s.first().name != n) by {
            if s.first().name == n {
                assert(s[0].name == n);
            }
        }
        let t = s.drop_first();
        assert(!langs_have(t, n)) by {
            if langs_have(t, n) {
                let k = choose|k: int| 0 <= k < t.len() && t[k].name == n;
                assert(s[k + 1].name == n);
            }
        }
        lemma_first_color_in_absent(t, n);
    }
}

/// Extending a language list never changes an already-found first color,
/// and records the new usage's color when the name is first seen.
pub proof fn lemma_first_color_in_take_succ(s: Seq<LanguageView>, j: int, n: Seq<char>)
    requires
        0 <= j < s.len(),
    ensures
        langs_have(s.take(j), n) ==> first_color_in(s.take(j + 1), n) == first_color_in(
            s.take(j),
            n,
        ),
        !langs_have(s.take(j), n) && s[j].name == n ==> first_color_in(s.take(j + 1), n)
            == s[j].color,
    decreases j,
{
    let t1 = s.take(j + 1);
    let t0 = s.take(j);
    if j == 0 {
        assert(t1.first() == s[0]);
        if s[0].name != n {
            assert(!langs_have(t0, n));
        }
    } else {
        let d = s.drop_first();
        assert(t1.first() == s[0]);
        assert(t0.first() == s[0]);
        assert(t1.drop_first() =~= d.take(j));
        assert(t0.drop_first() =~= d.take(j - 1));
        assert(d[j - 1] == s[j]);
        lemma_first_color_in_take_succ(d, j - 1, n);
        if s[0].name == n {
            assert(langs_have(t0, n)) by {
                assert(t0[0].name == n);
            }
            assert(first_color_in(t1, n) == s[0].color);
            assert(first_color_in(t0, n) == s[0].color);
        } else {
            assert(langs_have(t0, n) <==> langs_have(d.take(j - 1), n)) by {
                if langs_have(t0, n) {
                    let k = choose|k: int| 0 <= k < t0.len() && t0[k].name == n;
                    assert(k != 0);
                    assert(d.take(j - 1)[k - 1].name == n);
                }
                if langs_have(d.take(j - 1), n) {
                    let td = d.take(j - 1);
                    let k = choose|k: int| 0 <= k < td.len() && td[k].name == n;
                    assert(t0[k + 1].name == n);
                }
            }
            assert(first_color_in(t1, n) == first_color_in(d.take(j), n));
            assert(first_color_in(t0, n) == first_color_in(d.take(j - 1), n));
        }
    }
}

/// Extending the account by one repository never changes an already-found
/// first color, and otherwise looks in the new repository.
pub proof fn lemma_first_color_push(a: Seq<RepositoryView>, r: RepositoryView, n: Seq<char>)
    ensures
        has_lang(a, n) ==> first_color(a.push(r), n) == first_color(a, n),
        !has_lang(a, n) ==> first_color(a.push(r), n) == first_color_in(r.languages, n),
    decreases a.len(),
{
    let b = a.push(r);
    if a.len() == 0 {
        assert(b.first() == r);
        assert(b.drop_first() =~= Seq::<RepositoryView>::empty());
        if !langs_have(r.languages, n) {
            lemma_first_color_in_absent(r.languages, n);
            assert(first_color(b, n) == first_color(b.drop_first(), n));
            assert(first_color(b.drop_first(), n) == Seq::<char>::empty());
            assert(first_color(b, n) == first_color_in(r.languages, n));
        } else {
            assert(langs_have(b.first().languages, n));
            assert(first_color(b, n) == first_color_in(b.first().languages, n));
            assert(first_color(b, n) == first_color_in(r.languages, n));
        }
        assert(!has_lang(a, n)) by {
            if has_lang(a, n) {
                let (i, j) = choose|i: int, j: int|
                    0 <= i < a.len() && 0 <= j < a[i].languages.len() && a[i].languages[j].name
                        == n;
            }
        }
    } else {
        assert(b.first() == a.first());
        assert(b.drop_first() =~= a.drop_first().push(r));
        lemma_first_color_push(a.drop_first(), r, n);
        if langs_have(a.first().languages, n) {
            assert(has_lang(a, n)) by {
                let j = choose|j: int|
                    0 <= j < a.first().languages.len() && a.first().languages[j].name == n;
                assert(a[0].languages[j].name == n);
            }
        } else {
            assert(has_lang(a, n) <==> has_lang(a.drop_first(), n)) by {
                if has_lang(a, n) {
                    let (i, j) = choose|i: int, j: int|
                        0 <= i < a.len() && 0 <= j < a[i].languages.len() && a[i].languages[j].name
                            == n;
                    if i == 0 {
                        assert(langs_have(a.first().languages, n)) by {
                            assert(a.first().languages[j].name == n);
                        }
                        assert(false);
                    } else {
                        assert(a.drop_first()[i - 1].languages[j].name == n);
                    }
                }
                if has_lang(a.drop_first(), n) {
                    let ad = a.drop_first();
                    let (i, j) = choose|i: int, j: int|
                        0 <= i < ad.len() && 0 <= j < ad[i].languages.len()
                            && ad[i].languages[j].name == n;
                    assert(a[i + 1].languages[j].name == n);
                }
            }
            if !has_lang(a, n) {
                assert(!has_lang(a.drop_first(), n));
                assert(first_color(a.drop_first().push(r), n) == first_color_in(r.languages, n));
                assert(first_color(b, n) == first_color(b.drop_first(), n));
                assert(first_color(b, n) == first_color_in(r.languages, n));
            }
        }
    }
}

/// A sum of nonnegative line counts is nonnegative.
pub proof fn lemma_sum_lines_nonneg(s: Seq<LanguageView>)
    requires
        forall|i: int| 0 <= i < s.len() ==> 0 <= (#[trigger] s[i]).lines,
    ensures
        0 <= sum_lines(s),
    decreases s.len(),
{
    if s.len() > 0 {
        lemma_sum_lines_nonneg(s.drop_last());
        assert(s[s.len() - 1].lines >= 0);
    }
}

/// Each nonnegative line count is at most the whole total.
pub proof fn lemma_sum_lines_elem_le(s: Seq<LanguageView>, k: int)
    requires
        0 <= k < s.len(),
        forall|i: int| 0 <= i < s.len() ==> 0 <= (#[trigger] s[i]).lines,
    ensures
        s[k].lines <= sum_lines(s),
    decreases s.len(),
{
    if k == s.len() - 1 {
        lemma_sum_lines_nonneg(s.drop_last());
    } else {
        lemma_sum_lines_elem_le(s.drop_last(), k);
        assert(s.drop_last()[k] == s[k]);
        assert(s.last().lines >= 0);
    }
}

/// Removing one record removes exactly its contribution from the total.
pub proof fn lemma_sum_partials_remove(s: Seq<PartialView>, m: int)
    requires
        0 <= m < s.len(),
    ensures
        sum_partials(s.remove(m)) == sum_partials(s) - s[m].stars,
    decreases s.len(),
{
    if m == s.len() - 1 {
        assert(s.remove(m) =~= s.drop_last());
    } else {
        lemma_sum_partials_remove(s.drop_last(), m);
        assert(s.remove(m).drop_last() =~= s.drop_last().remove(m));
        assert(s.remove(m).last() == s.last());
    }
}

/// Removing one record removes exactly its contribution from the total.
pub proof fn lemma_sum_weighted_remove(s: Seq<LanguageView>, m: int)
    requires
        0 <= m < s.len(),
    ensures
        sum_weighted(s.remove(m)) == sum_weighted(s) - s[m].stars,
    decreases s.len(),
{
    if m == s.len() - 1 {
        assert(s.remove(m) =~= s.drop_last());
    } else {
        lemma_sum_weighted_remove(s.drop_last(), m);
        assert(s.remove(m).drop_last() =~= s.drop_last().remove(m));
        assert(s.remove(m).last() == s.last());
    }
}

/// Inserting one record adds exactly its contribution to the total.
pub proof fn lemma_sum_weighted_insert(s: Seq<LanguageView>, m: int, x: LanguageView)
    requires
        0 <= m <= s.len(),
    ensures
        sum_weighted(s.insert(m, x)) == sum_weighted(s) + x.stars,
    decreases s.len(),
{
    if m == s.len() {
        assert(s.insert(m, x) =~= s.push(x));
        assert(s.push(x).drop_last() =~= s);
        assert(s.push(x).last() == x);
    } else {
        lemma_sum_weighted_insert(s.drop_last(), m, x);
        assert(s.insert(m, x).drop_last() =~= s.drop_last().insert(m, x));
        assert(s.insert(m, x).last() == s.last());
    }
}

impl Clone for Partial {
    /// An exact copy: the views agree.
    fn clone(&self) -> (res: Self)
        ensures
            res@ == self@,
    {
        Partial { repository: self.repository.clone(), stars: self.stars }
    }
}

/// Appends a copy of every record in `src` onto `dst`.
pub fn append_partials(dst: &mut Vec<Partial>, src: &Vec<Partial>)
    ensures
        partial_views(final(dst)@) == partial_views(old(dst)@) + partial_views(src@),
{
    let ghost base = dst@;
    let mut j: usize = 0;
    while j < src.len()
        invariant
            j <= src@.len(),
            dst@.len() == base.len() + j,
            forall|k: int| 0 <= k < base.len() ==> dst@[k] == base[k],
            forall|k: int| 0 <= k < j ==> (#[trigger] src@[k])@ == dst@[base.len() + k]@,
        decreases src.len() - j,
    {
        let p = Partial::clone(&src[j]);
        assert(p@ == src@[j as int]@);
        dst.push(p);
        j = j + 1;
    }
    proof {
        let lhs = partial_views(dst@);
        let rhs = partial_views(base) + partial_views(src@);
        assert(lhs.len() == rhs.len());
        assert forall|k: int| 0 <= k < lhs.len() implies lhs[k] == rhs[k] by {
            assert(lhs[k] == dst@[k]@);
            if k < base.len() {
                assert(rhs[k] == partial_views(base)[k]);
                assert(partial_views(base)[k] == base[k]@);
            } else {
                assert(rhs[k] == partial_views(src@)[k - base.len()]);
                assert(partial_views(src@)[k - base.len()] == src@[k - base.len()]@);
                assert((#[trigger] src@[k - base.len()])@ == dst@[k]@);
            }
        }
        assert(lhs =~= rhs);
    }
}

/// A deep copy of a source breakdown: the views agree.
pub fn clone_partials(v: &Vec<Partial>) -> (res: Vec<Partial>)
    ensures
        partial_views(res@) == partial_views(v@),
{
    let mut out: Vec<Partial> = Vec::new();
    assert(partial_views(out@) =~= Seq::<PartialView>::empty());
    append_partials(&mut out, v);
    assert(partial_views(out@) =~= partial_views(v@));
    out
}

/// Appends a copy of every language record in `src` onto `dst`.
pub fn append_languages(dst: &mut Vec<Language>, src: &Vec<Language>)
    ensures
        language_views(final(dst)@) == language_views(old(dst)@) + language_views(src@),
{
    let ghost base = dst@;
    let mut j: usize = 0;
    while j < src.len()
        invariant
            j <= src@.len(),
            dst@.len() == base.len() + j,
            forall|k: int| 0 <= k < base.len() ==> dst@[k] == base[k],
            forall|k: int| 0 <= k < j ==> (#[trigger] src@[k])@ == dst@[base.len() + k]@,
        decreases src.len() - j,
    {
        let l = Language::clone(&src[j]);
        assert(l@ == src@[j as int]@);
        dst.push(l);
        j = j + 1;
    }
    proof {
        let lhs = language_views(dst@);
        let rhs = language_views(base) + language_views(src@);
        assert(lhs.len() == rhs.len());
        assert forall|k: int| 0 <= k < lhs.len() implies lhs[k] == rhs[k] by {
            assert(lhs[k] == dst@[k]@);
            if k < base.len() {
                assert(rhs[k] == language_views(base)[k]);
                assert(language_views(base)[k] == base[k]@);
            } else {
                assert(rhs[k] == language_views(src@)[k - base.len()]);
                assert(language_views(src@)[k - base.len()] == src@[k - base.len()]@);
                assert((#[trigger] src@[k - base.len()])@ == dst@[k]@);
            }
        }
        assert(lhs =~= rhs);
    }
}

/// A deep copy of a language list: the views agree.
pub fn clone_languages(v: &Vec<Language>) -> (res: Vec<Language>)
    ensures
        language_views(res@) == language_views(v@),
{
    let mut out: Vec<Language> = Vec::new();
    assert(language_views(out@) =~= Seq::<LanguageView>::empty());
    append_languages(&mut out, v);
    assert(language_views(out@) =~= language_views(v@));
    out
}

impl Clone for Language {
    /// An exact copy: the views agree.
    fn clone(&self) -> (res: Self)
        ensures
            res@ == self@,
    {
        let res = Language {
            name: self.name.clone(),
            stars: self.stars,
            color: self.color.clone(),
            source: clone_partials(&self.source),
            lines: self.lines,
        };
        assert(res@ =~= self@);
        res
    }
}

impl Clone for Repository {
    /// An exact copy: the views agree.
    fn clone(&self) -> (res: Self)
        ensures
            res@ == self@,
    {
        let res = Repository {
            name: self.name.clone(),
            languages: clone_languages(&self.languages),
            stars: self.stars,
        };
        assert(res@ =~= self@);
        res
    }
}

impl Language {
    /// A fresh accumulator for the language `name`: no stars, no sources, the
    /// given color.
    pub fn new(name: String, color: String) -> (res: Self)
        ensures
            res@.name == name@,
            res@.stars == 0,
            res@.color == color@,
            res@.source == Seq::<PartialView>::empty(),
            res@.lines == 0,
    {
        let res = Language { name, stars: 0, color, source: Vec::new(), lines: 0 };
        assert(res@.source =~= Seq::<PartialView>::empty());
        res
    }

    /// Merges an older accumulated figure into this one: star weights and
    /// line counts add up, the older color wins, and the source breakdowns
    /// are chained.
    pub fn merge(&self, old: &Self) -> (res: Self)
        requires
            self.stars + old.stars <= u128::MAX,
            self.lines + old.lines <= u64::MAX,
        ensures
            res@.name == self@.name,
            res@.stars == self@.stars + old@.stars,
            res@.lines == self@.lines + old@.lines,
            res@.color == old@.color,
            res@.source == self@.source + old@.source,
    {
        let mut source = clone_partials(&self.source);
        append_partials(&mut source, &old.source);
        Language {
            name: self.name.clone(),
            stars: self.stars + old.stars,
            lines: self.lines + old.lines,
            color: old.color.clone(),
            source,
        }
    }
}

} // verus!
