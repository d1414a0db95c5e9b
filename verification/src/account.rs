use vstd::prelude::*;

verus! {

use crate::graphql;
use crate::graphql::{converted_repo, converted_language};
use crate::model::{
    Language, LanguageView, Partial, PartialView, Repository, RepositoryView, clone_partials,
    language_views, partial_views, repository_views, sum_lines, sum_partials, sum_repo_stars,
    sum_weighted,
};

/// An account under evaluation: its repositories as fetched, and the
/// aggregated per-language ranking once computed.
pub struct User {
    pub name: String,
    pub languages: Vec<Language>,
    pub stars: u128,
    pub login: String,
    pub repositories: Vec<Repository>,
}

impl User {
    /// A fresh account record for `login`: nothing fetched, nothing
    /// aggregated.
    pub fn new(login: String) -> (res: Self)
        ensures
            res.login@ == login@,
            res.name@ == Seq::<char>::empty(),
            res.stars == 0,
            res.repositories@.len() == 0,
            res.languages@.len() == 0,
    {
        User {
            login,
            languages: Vec::new(),
            stars: 0,
            repositories: Vec::new(),
            name: String::new(),
        }
    }

    /// Appends one page of repository edges, each converted into a
    /// repository record with raw line counts and zero weights.
    pub fn store_repos(&mut self, repos: Vec<graphql::RepositoryEdge>)
        ensures
            final(self).repositories@.len() == old(self).repositories@.len() + repos@.len(),
            forall|k: int|
                0 <= k < old(self).repositories@.len() ==> final(self).repositories@[k] == old(
                    self,
                ).repositories@[k],
            forall|k: int|
                0 <= k < repos@.len() ==> converted_repo(
                    #[trigger] repos@[k],
                    final(self).repositories@[old(self).repositories@.len() + k]@,
                ),
            final(self).name == old(self).name,
            final(self).login == old(self).login,
            final(self).stars == old(self).stars,
            final(self).languages == old(self).languages,
    {
        let ghost base = self.repositories@;
        let mut i: usize = 0;
        while i < repos.len()
            invariant
                i <= repos@.len(),
                self.repositories@.len() == base.len() + i,
                forall|k: int| 0 <= k < base.len() ==> self.repositories@[k] == base[k],
                forall|k: int|
                    0 <= k < i ==> converted_repo(
                        #[trigger] repos@[k],
                        self.repositories@[base.len() + k]@,
                    ),
                self.name == old(self).name,
                self.login == old(self).login,
                self.stars == old(self).stars,
                self.languages == old(self).languages,
            decreases repos@.len() - i,
        {
            let edge = &repos[i];
            let mut languages: Vec<Language> = Vec::new();
            let mut j: usize = 0;
            while j < edge.node.languages.edges.len()
                invariant
                    j <= edge.node.languages.edges@.len(),
                    languages@.len() == j,
                    forall|k: int|
                        0 <= k < j ==> converted_language(
                            #[trigger] edge.node.languages.edges@[k],
                            languages@[k]@,
                        ),
                decreases edge.node.languages.edges@.len() - j,
            {
                let le = &edge.node.languages.edges[j];
                let color: String = match &le.node.color {
                    Some(c) => c.clone(),
                    None => "#efefef".to_string(),
                };
                let lang = Language {
                    name: le.node.name.clone(),
                    stars: 0,
                    color,
                    source: Vec::new(),
                    lines: le.size as u64,
                };
                assert(lang@.source =~= Seq::<PartialView>::empty());
                assert(converted_language(edge.node.languages.edges@[j as int], lang@));
                languages.push(lang);
                j = j + 1;
            }
            let repo = Repository {
                name: edge.node.name.clone(),
                languages,
                stars: edge.node.stargazer_count,
            };
            assert(converted_repo(repos@[i as int], repo@));
            self.repositories.push(repo);
            i = i + 1;
        }
    }
}

} // verus!

verus! {

use crate::SCALE;
use crate::model::{
    lemma_sum_lines_elem_le, lemma_sum_lines_nonneg, lemma_sum_lines_take_succ,
    lemma_sum_repo_stars_take_succ,
};
use crate::weight::{
    lemma_weighted_sum_bounds, weight_value, weighted_langs, weighted_repos, weighted_stars,
};
use vstd::arithmetic::mul::{
    lemma_mul_is_distributive_sub_other_way, lemma_mul_nonnegative, lemma_mul_upper_bound,
};

impl User {
    /// Sets the account star total and distributes every repository's stars
    /// over its languages in proportion to lines of code (zero weights when
    /// a repository reports no lines).  Afterwards each repository's weights
    /// sum to at most its scaled star count.
    pub fn calculate(&mut self)
        ensures
            final(self).stars as int == sum_repo_stars(repository_views(old(self).repositories@)),
            final(self).name == old(self).name,
            final(self).login == old(self).login,
            final(self).languages == old(self).languages,
            weighted_repos(
                repository_views(old(self).repositories@),
                repository_views(final(self).repositories@),
            ),
            forall|i: int|
                0 <= i < final(self).repositories@.len() ==> sum_weighted(
                    (#[trigger] repository_views(final(self).repositories@)[i]).languages,
                ) <= repository_views(final(self).repositories@)[i].stars * (SCALE as int),
    {
        let ghost rv = repository_views(self.repositories@);
        let mut ts: u128 = 0;
        let mut i: usize = 0;
        while i < self.repositories.len()
            invariant
                i <= rv.len(),
                rv == repository_views(self.repositories@),
                *self == *old(self),
                ts as int == sum_repo_stars(rv.take(i as int)),
                ts as int <= i as int * (u32::MAX as int),
            decreases rv.len() - i,
        {
            let s32 = self.repositories[i].stars;
            proof {
                lemma_sum_repo_stars_take_succ(rv, i as int);
                assert(rv[i as int] == self.repositories@[i as int]@);
                assert(rv[i as int].stars == s32 as int);
                assert((i as int + 1) * (u32::MAX as int) == i as int * (u32::MAX as int) + (
                u32::MAX as int)) by {
                    lemma_mul_is_distributive_sub_other_way(
                        u32::MAX as int,
                        i as int + 1,
                        1,
                    );
                }
                assert((i as int + 1) * (u32::MAX as int) <= u128::MAX as int) by {
                    lemma_mul_upper_bound(
                        i as int + 1,
                        u64::MAX as int,
                        u32::MAX as int,
                        u32::MAX as int,
                    );
                }
            }
            ts = ts + s32 as u128;
            i = i + 1;
        }
        proof {
            assert(rv.take(i as int) =~= rv);
        }
        let mut out: Vec<Repository> = Vec::new();
        let mut i2: usize = 0;
        while i2 < self.repositories.len()
            invariant
                i2 <= rv.len(),
                rv == repository_views(self.repositories@),
                *self == *old(self),
                out@.len() == i2,
                ts as int == sum_repo_stars(rv),
                forall|k: int|
                    0 <= k < i2 ==> {
                        let o = rv[k];
                        let r = (#[trigger] repository_views(out@)[k]);
                        &&& r.name == o.name
                        &&& r.stars == o.stars
                        &&& weighted_langs(o.stars, o.languages, r.languages)
                        &&& sum_weighted(r.languages) <= r.stars * (SCALE as int)
                    },
            decreases rv.len() - i2,
        {
            let ghost pre_out = repository_views(out@);
            let repo = &self.repositories[i2];
            let ghost lv = language_views(repo.languages@);
            proof {
                assert(rv[i2 as int] == self.repositories@[i2 as int]@);
                assert(rv[i2 as int].languages == lv);
                assert(forall|k: int| 0 <= k < lv.len() ==> 0 <= (#[trigger] lv[k]).lines);
            }
            let mut tl: u128 = 0;
            let mut j: usize = 0;
            while j < repo.languages.len()
                invariant
                    j <= lv.len(),
                    lv == language_views(repo.languages@),
                    tl as int == sum_lines(lv.take(j as int)),
                    tl as int <= j as int * (u64::MAX as int),
                decreases lv.len() - j,
            {
                let l64 = repo.languages[j].lines;
                proof {
                    lemma_sum_lines_take_succ(lv, j as int);
                    assert(lv[j as int] == repo.languages@[j as int]@);
                    assert(lv[j as int].lines == l64 as int);
                    assert((j as int + 1) * (u64::MAX as int) == j as int * (u64::MAX as int) + (
                    u64::MAX as int)) by {
                        lemma_mul_is_distributive_sub_other_way(
                            u64::MAX as int,
                            j as int + 1,
                            1,
                        );
                    }
                    assert((j as int + 1) * (u64::MAX as int) <= u128::MAX as int) by {
                        lemma_mul_upper_bound(
                            j as int + 1,
                            u64::MAX as int,
                            u64::MAX as int,
                            u64::MAX as int,
                        );
                    }
                }
                tl = tl + l64 as u128;
                j = j + 1;
            }
            proof {
                assert(lv.take(j as int) =~= lv);
            }
            let mut langs: Vec<Language> = Vec::new();
            let mut j2: usize = 0;
            while j2 < repo.languages.len()
                invariant
                    j2 <= lv.len(),
                    lv == language_views(repo.languages@),
                    tl as int == sum_lines(lv),
                    langs@.len() == j2,
                    rv == repository_views(self.repositories@),
                    rv[i2 as int].languages == lv,
                    i2 < rv.len(),
                    repo == &self.repositories[i2 as int],
                    forall|k: int|
                        0 <= k < j2 ==> {
                            let o = lv[k];
                            let l = (#[trigger] language_views(langs@)[k]);
                            &&& l.name == o.name
                            &&& l.color == o.color
                            &&& l.lines == o.lines
                            &&& l.source == o.source
                            &&& l.stars == if tl > 0 {
                                weight_value(rv[i2 as int].stars, o.lines, tl as int)
                            } else {
                                0
                            }
                        },
                decreases lv.len() - j2,
            {
                let lg = &repo.languages[j2];
                proof {
                    assert(lv[j2 as int] == repo.languages@[j2 as int]@);
                    if tl > 0 {
                        lemma_sum_lines_elem_le(lv, j2 as int);
                    }
                }
                let w: u128 = if tl > 0 {
                    weighted_stars(repo.stars, lg.lines, tl)
                } else {
                    0
                };
                let ghost pre_langs = language_views(langs@);
                let nl = Language {
                    name: lg.name.clone(),
                    stars: w,
                    color: lg.color.clone(),
                    source: clone_partials(&lg.source),
                    lines: lg.lines,
                };
                assert(nl@.name == lv[j2 as int].name);
                assert(nl@.source == lv[j2 as int].source);
                langs.push(nl);
                proof {
                    assert(language_views(langs@) =~= pre_langs.push(nl@));
                }
                j2 = j2 + 1;
            }
            let ghost nlv = language_views(langs@);
            proof {
                // the new list is the old one, reweighted
                assert(sum_lines(nlv) == sum_lines(lv)) by {
                    lemma_sum_lines_views_eq(lv, nlv);
                }
                assert(weighted_langs(rv[i2 as int].stars, lv, nlv));
                if tl > 0 {
                    assert(forall|k: int|
                        0 <= k < nlv.len() ==> (#[trigger] nlv[k]).stars == weight_value(
                            rv[i2 as int].stars,
                            nlv[k].lines,
                            tl as int,
                        ) && 0 <= nlv[k].lines);
                    lemma_weighted_sum_bounds(rv[i2 as int].stars, nlv, tl as int);
                    assert(sum_weighted(nlv) <= rv[i2 as int].stars * (SCALE as int));
                } else {
                    lemma_sum_weighted_zero(nlv);
                    lemma_mul_nonnegative(rv[i2 as int].stars, SCALE as int);
                    assert(sum_weighted(nlv) <= rv[i2 as int].stars * (SCALE as int));
                }
            }
            let nr = Repository { name: repo.name.clone(), languages: langs, stars: repo.stars };
            assert(nr@.name == rv[i2 as int].name);
            assert(nr@.languages == nlv);
            out.push(nr);
            proof {
                assert(repository_views(out@) =~= pre_out.push(nr@));
            }
            i2 = i2 + 1;
        }
        proof {
            assert(repository_views(out@).len() == rv.len());
        }
        self.repositories = out;
        self.stars = ts;
    }
}

/// Equal line counts give equal totals.
proof fn lemma_sum_lines_views_eq(a: Seq<LanguageView>, b: Seq<LanguageView>)
    requires
        a.len() == b.len(),
        forall|k: int| 0 <= k < a.len() ==> (#[trigger] b[k]).lines == a[k].lines,
    ensures
        sum_lines(b) == sum_lines(a),
    decreases a.len(),
{
    if a.len() > 0 {
        assert(forall|k: int|
            0 <= k < a.drop_last().len() ==> (#[trigger] b.drop_last()[k]).lines
                == a.drop_last()[k].lines) by {
            assert(forall|k: int| 0 <= k < a.len() - 1 ==> a.drop_last()[k] == a[k]);
            assert(forall|k: int| 0 <= k < b.len() - 1 ==> b.drop_last()[k] == b[k]);
        }
        lemma_sum_lines_views_eq(a.drop_last(), b.drop_last());
        assert(a.last().lines == b.last().lines) by {
            assert(b[a.len() - 1].lines == a[a.len() - 1].lines);
        }
    }
}

/// A list of zero weights sums to zero.
proof fn lemma_sum_weighted_zero(s: Seq<LanguageView>)
    requires
        forall|k: int| 0 <= k < s.len() ==> (#[trigger] s[k]).stars == 0,
    ensures
        sum_weighted(s) == 0,
    decreases s.len(),
{
    if s.len() > 0 {
        assert(forall|k: int| 0 <= k < s.len() - 1 ==> (#[trigger] s.drop_last()[k]).stars == 0) by {
            assert(forall|k: int| 0 <= k < s.len() - 1 ==> s.drop_last()[k] == s[k]);
        }
        lemma_sum_weighted_zero(s.drop_last());
        assert(s[s.len() - 1].stars == 0);
    }
}

} // verus!

verus! {

use crate::model::{
    contributions, first_color, first_color_in, has_lang, lang_total, langs_have,
    lemma_first_color_in_take_succ, lemma_first_color_push, lemma_has_lang_push,
    lemma_lang_total_absent, lemma_lang_total_push, lemma_langs_have_take_succ,
    lemma_repo_contributions_take_succ, lemma_repo_lang_total_absent,
    lemma_repo_lang_total_take_succ, lemma_sum_weighted_take_succ, lemma_total_weight_push,
    repo_contributions, repo_lang_total, total_weight,
};

/// The aggregation invariant: each accumulator carries exactly the total,
/// the positive contributions (in merge order) and the first-seen color of
/// its language over the repositories processed so far, names are unique,
/// every processed usage has its accumulator, and the accumulators' stars
/// add up to all processed weight.
pub open spec fn agg_invariant(ls: Seq<LanguageView>, processed: Seq<RepositoryView>) -> bool {
    &&& forall|k1: int, k2: int| 0 <= k1 < k2 < ls.len() ==> ls[k1].name != ls[k2].name
    &&& forall|k: int|
        0 <= k < ls.len() ==> (#[trigger] ls[k]).stars == lang_total(processed, ls[k].name)
    &&& forall|k: int|
        0 <= k < ls.len() ==> (#[trigger] ls[k]).source == contributions(processed, ls[k].name)
    &&& forall|k: int|
        0 <= k < ls.len() ==> (#[trigger] ls[k]).color == first_color(processed, ls[k].name)
    &&& forall|k: int| 0 <= k < ls.len() ==> has_lang(processed, (#[trigger] ls[k]).name)
    &&& forall|i: int, j: int|
        0 <= i < processed.len() && 0 <= j < processed[i].languages.len() ==> exists|k: int|
            0 <= k < ls.len() && (#[trigger] ls[k]).name == (
            #[trigger] processed[i].languages[j]).name
    &&& sum_weighted(ls) == total_weight(processed)
}

/// The repository list with repository `i` cut down to its first `j`
/// language usages: what the aggregation has consumed mid-repository.
pub open spec fn processed_prefix(rv: Seq<RepositoryView>, i: int, j: int) -> Seq<RepositoryView> {
    rv.take(i).push(
        RepositoryView { name: rv[i].name, languages: rv[i].languages.take(j), stars: rv[i].stars },
    )
}

/// Starting a repository consumes nothing: the empty prefix leaves every
/// aggregate exactly as it stood after the previous repositories.
proof fn lemma_processed_start(rv: Seq<RepositoryView>, i: int, m: Seq<char>)
    requires
        0 <= i < rv.len(),
    ensures
        lang_total(processed_prefix(rv, i, 0), m) == lang_total(rv.take(i), m),
        contributions(processed_prefix(rv, i, 0), m) == contributions(rv.take(i), m),
        has_lang(processed_prefix(rv, i, 0), m) <==> has_lang(rv.take(i), m),
        has_lang(rv.take(i), m) ==> first_color(processed_prefix(rv, i, 0), m) == first_color(
            rv.take(i),
            m,
        ),
        total_weight(processed_prefix(rv, i, 0)) == total_weight(rv.take(i)),
{
    let p = rv.take(i);
    let pre = RepositoryView { name: rv[i].name, languages: rv[i].languages.take(0), stars: rv[i].stars };
    assert(pre.languages =~= Seq::<LanguageView>::empty());
    assert(!langs_have(pre.languages, m)) by {
        if langs_have(pre.languages, m) {
            let j = choose|j: int| 0 <= j < pre.languages.len() && pre.languages[j].name == m;
        }
    }
    lemma_lang_total_push(p, pre, m);
    lemma_repo_lang_total_absent(pre.name, pre.languages, m);
    assert(contributions(p, m) + Seq::<PartialView>::empty() =~= contributions(p, m));
    lemma_has_lang_push(p, pre, m);
    lemma_first_color_push(p, pre, m);
    lemma_total_weight_push(p, pre);
}

/// Consuming one more usage: what changes for the language it names, and
/// that nothing changes for any other language.
proof fn lemma_processed_step(rv: Seq<RepositoryView>, i: int, j: int, m: Seq<char>)
    requires
        0 <= i < rv.len(),
        0 <= j < rv[i].languages.len(),
    ensures
        ({
            let p0 = processed_prefix(rv, i, j);
            let p1 = processed_prefix(rv, i, j + 1);
            let lv = rv[i].languages;
            let n = lv[j].name;
            &&& m != n ==> lang_total(p1, m) == lang_total(p0, m) && contributions(p1, m)
                == contributions(p0, m)
            &&& m == n ==> lang_total(p1, m) == lang_total(p0, m) + lv[j].stars
            &&& m == n && lv[j].stars > 0 ==> contributions(p1, m) == contributions(p0, m) + seq![
                PartialView { repository: rv[i].name, stars: lv[j].stars },
            ]
            &&& m == n && lv[j].stars <= 0 ==> contributions(p1, m) == contributions(p0, m)
            &&& has_lang(p0, m) ==> has_lang(p1, m) && first_color(p1, m) == first_color(p0, m)
            &&& !has_lang(p0, m) && m == n ==> has_lang(p1, m) && first_color(p1, m) == lv[j].color
                && lang_total(p0, m) == 0 && contributions(p0, m) == Seq::<PartialView>::empty()
            &&& !has_lang(p0, m) && m != n ==> !has_lang(p1, m)
            &&& (has_lang(p1, m) <==> (has_lang(p0, m) || m == n))
            &&& total_weight(p1) == total_weight(p0) + lv[j].stars
        }),
{
    let p = rv.take(i);
    let lv = rv[i].languages;
    let n = lv[j].name;
    let pre0 = RepositoryView { name: rv[i].name, languages: lv.take(j), stars: rv[i].stars };
    let pre1 = RepositoryView { name: rv[i].name, languages: lv.take(j + 1), stars: rv[i].stars };
    let p0 = processed_prefix(rv, i, j);
    let p1 = processed_prefix(rv, i, j + 1);
    lemma_lang_total_push(p, pre0, m);
    lemma_lang_total_push(p, pre1, m);
    lemma_repo_lang_total_take_succ(lv, j, m);
    lemma_repo_contributions_take_succ(rv[i].name, lv, j, m);
    lemma_has_lang_push(p, pre0, m);
    lemma_has_lang_push(p, pre1, m);
    lemma_langs_have_take_succ(lv, j, m);
    lemma_first_color_push(p, pre0, m);
    lemma_first_color_push(p, pre1, m);
    lemma_first_color_in_take_succ(lv, j, m);
    lemma_total_weight_push(p, pre0);
    lemma_total_weight_push(p, pre1);
    lemma_sum_weighted_take_succ(lv, j);
    if m != n {
        if !(lv[j].name == m && lv[j].stars > 0) {
        }
        assert(contributions(p1, m) == contributions(p0, m));
    }
    if !has_lang(p0, m) {
        lemma_lang_total_absent(p0, m);
        if m == n {
            assert(!langs_have(lv.take(j), m));
            assert(first_color(p1, m) == first_color_in(lv.take(j + 1), m));
            assert(first_color_in(lv.take(j + 1), m) == lv[j].color);
        }
    }
    if has_lang(p0, m) {
        if has_lang(p, m) {
            assert(first_color(p0, m) == first_color(p, m));
            assert(first_color(p1, m) == first_color(p, m));
        } else {
            assert(langs_have(lv.take(j), m));
            assert(first_color(p0, m) == first_color_in(lv.take(j), m));
            assert(first_color(p1, m) == first_color_in(lv.take(j + 1), m));
            assert(first_color_in(lv.take(j + 1), m) == first_color_in(lv.take(j), m));
        }
    }
}

/// Consuming a repository's last usage lands exactly on the next
/// repository boundary.
proof fn lemma_processed_finish(rv: Seq<RepositoryView>, i: int)
    requires
        0 <= i < rv.len(),
    ensures
        processed_prefix(rv, i, rv[i].languages.len() as int) == rv.take(i + 1),
{
    let pre = RepositoryView {
        name: rv[i].name,
        languages: rv[i].languages.take(rv[i].languages.len() as int),
        stars: rv[i].stars,
    };
    assert(pre.languages =~= rv[i].languages);
    assert(pre =~= rv[i]);
    assert(rv.take(i).push(rv[i]) =~= rv.take(i + 1));
}

} // verus!

verus! {

use crate::model::{
    lemma_sum_repo_stars_bound, lemma_sum_weighted_elem_le, lemma_sum_weighted_insert,
    lemma_sum_weighted_nonneg, lemma_sum_weighted_remove, lemma_total_weight_bound,
};
use crate::weight::lemma_sum_weighted_take_le;
use vstd::arithmetic::mul::{
    lemma_mul_inequality, lemma_mul_is_commutative, lemma_mul_is_distributive_add,
};

/// Finds the accumulator for `name`, if one exists.
fn find_language(accs: &Vec<Language>, name: &String) -> (r: Option<usize>)
    ensures
        match r {
            Some(idx) => 0 <= idx < accs@.len() && language_views(accs@)[idx as int].name == name@,
            None => forall|q: int|
                0 <= q < accs@.len() ==> (#[trigger] language_views(accs@)[q]).name != name@,
        },
{
    let mut idx: usize = 0;
    while idx < accs.len()
        invariant
            idx <= accs@.len(),
            forall|q: int| 0 <= q < idx ==> (#[trigger] language_views(accs@)[q]).name != name@,
        decreases accs@.len() - idx,
    {
        if accs[idx].name == *name {
            assert(language_views(accs@)[idx as int].name == name@);
            return Some(idx);
        }
        assert(language_views(accs@)[idx as int].name != name@);
        idx = idx + 1;
    }
    None
}

/// Merges the weighted repository records into one accumulator per
/// language, in repository order: totals add up, strictly positive weights
/// are recorded as sources, and the first-seen color is kept.
#[verifier::rlimit(100)]
fn aggregate_languages(repos: &Vec<Repository>) -> (accs: Vec<Language>)
    requires
        forall|i: int|
            0 <= i < repos@.len() ==> sum_weighted(
                (#[trigger] repository_views(repos@)[i]).languages,
            ) <= repository_views(repos@)[i].stars * (crate::SCALE as int),
    ensures
        agg_invariant(language_views(accs@), repository_views(repos@)),
{
    let ghost rv = repository_views(repos@);
    let ghost sc = crate::SCALE as int;
    let nrepos = repos.len();
    proof {
        assert(nrepos as int == rv.len());
        assert(rv.len() <= u64::MAX as int);
    }
    proof {
        assert(forall|k: int| 0 <= k < rv.len() ==> 0 <= (#[trigger] rv[k]).stars <= u32::MAX as int)
            by {
            assert(forall|k: int|
                0 <= k < rv.len() ==> (#[trigger] rv[k]) == repos@[k]@);
        }
    }
    proof {
        assert forall|k: int| 0 <= k < rv.len() implies 0 <= sum_weighted(
            (#[trigger] rv[k]).languages,
        ) by {
            assert(rv[k] == repos@[k]@);
            assert(forall|q: int|
                0 <= q < rv[k].languages.len() ==> 0 <= (#[trigger] rv[k].languages[q]).stars) by {
                assert(forall|q: int|
                    0 <= q < rv[k].languages.len() ==> rv[k].languages[q] == repos@[
                    k].languages@[q]@);
            }
            lemma_sum_weighted_nonneg(rv[k].languages);
        }
    }
    let mut accs: Vec<Language> = Vec::new();
    proof {
        assert(language_views(accs@) =~= Seq::<LanguageView>::empty());
        assert(rv.take(0) =~= Seq::<RepositoryView>::empty());
        assert(agg_invariant(language_views(accs@), rv.take(0)));
    }
    let mut i: usize = 0;
    while i < repos.len()
        invariant
            i <= rv.len(),
            rv == repository_views(repos@),
            forall|k: int|
                0 <= k < rv.len() ==> sum_weighted((#[trigger] rv[k]).languages) <= rv[k].stars
                    * (crate::SCALE as int),
            forall|k: int| 0 <= k < rv.len() ==> 0 <= (#[trigger] rv[k]).stars <= u32::MAX as int,
            forall|k: int|
                0 <= k < rv.len() ==> 0 <= sum_weighted((#[trigger] rv[k]).languages),
            sc == crate::SCALE as int,
            rv.len() <= u64::MAX as int,
            agg_invariant(language_views(accs@), rv.take(i as int)),
        decreases rv.len() - i,
    {
        let ghost lv = rv[i as int].languages;
        proof {
            assert(rv[i as int] == repos@[i as int]@);
            assert(forall|k: int| 0 <= k < lv.len() ==> 0 <= (#[trigger] lv[k]).stars) by {
                assert(forall|k: int|
                    0 <= k < lv.len() ==> (#[trigger] lv[k]) == repos@[i as int].languages@[k]@);
            }
            // entering the repository: the empty prefix changes nothing
            let ls = language_views(accs@);
            assert forall|k: int| 0 <= k < ls.len() implies {
                &&& (#[trigger] ls[k]).stars == lang_total(processed_prefix(rv, i as int, 0), ls[k].name)
                &&& ls[k].source == contributions(processed_prefix(rv, i as int, 0), ls[k].name)
                &&& ls[k].color == first_color(processed_prefix(rv, i as int, 0), ls[k].name)
                &&& has_lang(processed_prefix(rv, i as int, 0), ls[k].name)
            } by {
                lemma_processed_start(rv, i as int, ls[k].name);
            }
            assert forall|a: int, b: int|
                0 <= a < processed_prefix(rv, i as int, 0).len() && 0 <= b < processed_prefix(
                    rv,
                    i as int,
                    0,
                )[a].languages.len() implies exists|k: int|
                0 <= k < ls.len() && (#[trigger] ls[k]).name == (#[trigger] processed_prefix(
                    rv,
                    i as int,
                    0,
                )[a].languages[b]).name by {
                let p0 = processed_prefix(rv, i as int, 0);
                if a < i as int {
                    assert(p0[a] == rv.take(i as int)[a]);
                } else {
                    assert(p0[a].languages =~= Seq::<LanguageView>::empty());
                }
            }
            assert(total_weight(processed_prefix(rv, i as int, 0)) == total_weight(
                rv.take(i as int),
            )) by {
                lemma_processed_start(rv, i as int, Seq::<char>::empty());
            }
            assert(agg_invariant(language_views(accs@), processed_prefix(rv, i as int, 0)));
        }
        let mut j: usize = 0;
        while j < repos[i].languages.len()
            invariant
                0 <= i < rv.len(),
                j <= lv.len(),
                rv == repository_views(repos@),
                lv == rv[i as int].languages,
                forall|k: int|
                    0 <= k < rv.len() ==> sum_weighted((#[trigger] rv[k]).languages) <= rv[k].stars
                        * (crate::SCALE as int),
                forall|k: int|
                    0 <= k < rv.len() ==> 0 <= (#[trigger] rv[k]).stars <= u32::MAX as int,
                forall|k: int|
                    0 <= k < rv.len() ==> 0 <= sum_weighted((#[trigger] rv[k]).languages),
                forall|k: int| 0 <= k < lv.len() ==> 0 <= (#[trigger] lv[k]).stars,
                sc == crate::SCALE as int,
                rv.len() <= u64::MAX as int,
                agg_invariant(language_views(accs@), processed_prefix(rv, i as int, j as int)),
            decreases lv.len() - j,
        {
            let lang = &repos[i].languages[j];
            let ghost n = lv[j as int].name;
            let ghost p0 = processed_prefix(rv, i as int, j as int);
            let ghost p1 = processed_prefix(rv, i as int, j as int + 1);
            let ghost pre_ls = language_views(accs@);
            proof {
                assert(lv[j as int] == repos@[i as int].languages@[j as int]@);
            }
            let w: u128 = lang.stars;
            proof {
                assert(w as int == lv[j as int].stars);
                // every accumulator total, and the new weight, fit comfortably
                lemma_total_weight_bound(rv);
                lemma_sum_repo_stars_bound(rv, u32::MAX as int);
                lemma_mul_inequality(
                    sum_repo_stars(rv),
                    rv.len() as int * (u32::MAX as int),
                    sc,
                );
                lemma_mul_is_commutative(sum_repo_stars(rv), sc);
                lemma_mul_is_commutative(rv.len() as int * (u32::MAX as int), sc);
                assert(rv.len() as int * (u32::MAX as int) <= (u64::MAX as int) * (
                u32::MAX as int)) by {
                    lemma_mul_inequality(rv.len() as int, u64::MAX as int, u32::MAX as int);
                }
                assert(sc * (rv.len() as int * (u32::MAX as int)) <= sc * ((u64::MAX as int) * (
                u32::MAX as int))) by {
                    lemma_mul_inequality(
                        rv.len() as int * (u32::MAX as int),
                        (u64::MAX as int) * (u32::MAX as int),
                        sc,
                    );
                    lemma_mul_is_commutative(rv.len() as int * (u32::MAX as int), sc);
                    lemma_mul_is_commutative((u64::MAX as int) * (u32::MAX as int), sc);
                }
                assert(total_weight(rv) <= sc * ((u64::MAX as int) * (u32::MAX as int)));
                // the processed weight so far is at most the whole account's
                assert(total_weight(p0) + sum_weighted(lv) - sum_weighted(lv.take(j as int))
                    <= total_weight(rv)) by {
                    lemma_total_weight_take_le(rv, i as int, j as int);
                }
                lemma_sum_weighted_take_le(lv, j as int);
                assert(w as int <= sum_weighted(lv) - sum_weighted(lv.take(j as int))) by {
                    lemma_sum_weighted_take_succ(lv, j as int);
                    lemma_sum_weighted_take_le(lv, j as int + 1);
                }
                assert(total_weight(p0) + w as int <= total_weight(rv));
            }
            match find_language(&accs, &lang.name) {
                None => {
                    let mut src: Vec<Partial> = Vec::new();
                    if w > 0 {
                        src.push(
                            Partial { repository: repos[i].name.clone(), stars: w },
                        );
                    }
                    let acc = Language {
                        name: lang.name.clone(),
                        stars: w,
                        color: lang.color.clone(),
                        source: src,
                        lines: lang.lines,
                    };
                    accs.push(acc);
                    proof {
                        let ls = language_views(accs@);
                        assert(ls =~= pre_ls.push(acc@));
                        // the new name was absent so far
                        assert(!has_lang(p0, n)) by {
                            if has_lang(p0, n) {
                                let (a, b) = choose|a: int, b: int|
                                    0 <= a < p0.len() && 0 <= b < p0[a].languages.len()
                                        && p0[a].languages[b].name == n;
                                assert(exists|k: int|
                                    0 <= k < pre_ls.len() && (#[trigger] pre_ls[k]).name == n);
                            }
                        }
                        lemma_processed_step(rv, i as int, j as int, n);
                        assert(acc@.name == n);
                        assert(acc@.stars == lang_total(p1, n));
                        assert(acc@.source == contributions(p1, n)) by {
                            if w > 0 {
                                assert(acc@.source =~= Seq::<PartialView>::empty().push(
                                    PartialView { repository: rv[i as int].name, stars: w as int },
                                ));
                                assert(Seq::<PartialView>::empty() + seq![
                                    PartialView { repository: rv[i as int].name, stars: w as int },
                                ] =~= acc@.source);
                            } else {
                                assert(acc@.source =~= Seq::<PartialView>::empty());
                            }
                        }
                        assert(acc@.color == first_color(p1, n));
                        // the other accumulators keep their facts
                        assert forall|k: int| 0 <= k < pre_ls.len() implies {
                            &&& (#[trigger] pre_ls[k]).stars == lang_total(p1, pre_ls[k].name)
                            &&& pre_ls[k].source == contributions(p1, pre_ls[k].name)
                            &&& pre_ls[k].color == first_color(p1, pre_ls[k].name)
                            &&& has_lang(p1, pre_ls[k].name)
                        } by {
                            lemma_processed_step(rv, i as int, j as int, pre_ls[k].name);
                        }
                        // completeness over the extended prefix
                        assert forall|a: int, b: int|
                            0 <= a < p1.len() && 0 <= b < p1[a].languages.len() implies exists|
                            k: int,
                        |
                            0 <= k < ls.len() && (#[trigger] ls[k]).name == (#[trigger] p1[
                            a].languages[b]).name by {
                            if a < p0.len() && b < p0[a].languages.len() {
                                assert(p0[a].languages[b] == p1[a].languages[b]);
                                let k = choose|k: int|
                                    0 <= k < pre_ls.len() && (#[trigger] pre_ls[k]).name == p0[
                                    a].languages[b].name;
                                assert(ls[k].name == p1[a].languages[b].name);
                            } else {
                                assert(a == p0.len() - 1 && b == j as int);
                                assert(p1[a].languages[b] == lv[j as int]);
                                assert(ls[ls.len() - 1].name == n);
                            }
                        }
                        assert(sum_weighted(ls) == sum_weighted(pre_ls) + w as int) by {
                            assert(ls.drop_last() =~= pre_ls);
                            assert(ls.last() == acc@);
                        }
                        assert(agg_invariant(ls, p1));
                    }
                }
                Some(idx) => {
                    proof {
                        assert(pre_ls[idx as int].name == n);
                        assert(pre_ls[idx as int].stars <= sum_weighted(pre_ls)) by {
                            assert(forall|k: int|
                                0 <= k < pre_ls.len() ==> 0 <= (#[trigger] pre_ls[k]).stars) by {
                                assert(forall|k: int|
                                    0 <= k < pre_ls.len() ==> pre_ls[k] == accs@[k]@);
                            }
                            lemma_sum_weighted_elem_le(pre_ls, idx as int);
                        }
                        assert(pre_ls[idx as int].stars + w as int <= u128::MAX as int);
                    }
                    let old_acc = accs.remove(idx);
                    let ghost removed_ls = language_views(accs@);
                    let mut src = old_acc.source;
                    let ghost pre_src = partial_views(src@);
                    if w > 0 {
                        src.push(Partial { repository: repos[i].name.clone(), stars: w });
                    }
                    let merged = Language {
                        name: old_acc.name,
                        stars: old_acc.stars + w,
                        color: old_acc.color,
                        source: src,
                        lines: old_acc.lines,
                    };
                    accs.insert(idx, merged);
                    proof {
                        let ls = language_views(accs@);
                        assert(removed_ls =~= pre_ls.remove(idx as int));
                        assert(ls =~= removed_ls.insert(idx as int, merged@));
                        assert(ls =~= pre_ls.update(idx as int, merged@));
                        lemma_processed_step(rv, i as int, j as int, n);
                        assert(merged@.name == n);
                        assert(merged@.stars == lang_total(p1, n));
                        assert(merged@.source == contributions(p1, n)) by {
                            if w > 0 {
                                assert(merged@.source =~= pre_src.push(
                                    PartialView { repository: rv[i as int].name, stars: w as int },
                                ));
                                assert(pre_src + seq![
                                    PartialView { repository: rv[i as int].name, stars: w as int },
                                ] =~= merged@.source);
                                assert(pre_ls[idx as int].source == pre_src);
                            } else {
                                assert(merged@.source == pre_src);
                            }
                        }
                        assert(has_lang(p0, n));
                        assert(merged@.color == first_color(p1, n));
                        assert forall|k: int| 0 <= k < ls.len() && k != idx as int implies {
                            &&& (#[trigger] ls[k]).stars == lang_total(p1, ls[k].name)
                            &&& ls[k].source == contributions(p1, ls[k].name)
                            &&& ls[k].color == first_color(p1, ls[k].name)
                            &&& has_lang(p1, ls[k].name)
                        } by {
                            assert(ls[k] == pre_ls[k]);
                            assert(ls[k].name != n);
                            lemma_processed_step(rv, i as int, j as int, ls[k].name);
                        }
                        assert forall|a: int, b: int|
                            0 <= a < p1.len() && 0 <= b < p1[a].languages.len() implies exists|
                            k: int,
                        |
                            0 <= k < ls.len() && (#[trigger] ls[k]).name == (#[trigger] p1[
                            a].languages[b]).name by {
                            if a < p0.len() && b < p0[a].languages.len() {
                                assert(p0[a].languages[b] == p1[a].languages[b]);
                                let k = choose|k: int|
                                    0 <= k < pre_ls.len() && (#[trigger] pre_ls[k]).name == p0[
                                    a].languages[b].name;
                                assert(ls[k].name == p1[a].languages[b].name);
                            } else {
                                assert(a == p0.len() - 1 && b == j as int);
                                assert(p1[a].languages[b] == lv[j as int]);
                                assert(ls[idx as int].name == n);
                            }
                        }
                        assert(sum_weighted(ls) == sum_weighted(pre_ls) + w as int) by {
                            lemma_sum_weighted_remove(pre_ls, idx as int);
                            lemma_sum_weighted_insert(removed_ls, idx as int, merged@);
                        }
                        assert(agg_invariant(ls, p1));
                    }
                }
            }
            j = j + 1;
        }
        proof {
            lemma_processed_finish(rv, i as int);
        }
        i = i + 1;
    }
    proof {
        assert(rv.take(rv.len() as int) =~= rv);
    }
    accs
}

/// The weight not yet consumed of repository `i` is available in the whole
/// account's total weight.
proof fn lemma_total_weight_take_le(rv: Seq<RepositoryView>, i: int, j: int)
    requires
        0 <= i < rv.len(),
        0 <= j <= rv[i].languages.len(),
        forall|k: int|
            0 <= k < rv.len() ==> 0 <= sum_weighted((#[trigger] rv[k]).languages),
    ensures
        total_weight(processed_prefix(rv, i, j)) + sum_weighted(rv[i].languages) - sum_weighted(
            rv[i].languages.take(j),
        ) <= total_weight(rv),
{
    let pre = RepositoryView { name: rv[i].name, languages: rv[i].languages.take(j), stars: rv[i].stars };
    lemma_total_weight_push(rv.take(i), pre);
    lemma_total_weight_take_mono(rv, i);
}

/// Processing a prefix of the repositories never exceeds the whole weight.
proof fn lemma_total_weight_take_mono(rv: Seq<RepositoryView>, i: int)
    requires
        0 <= i < rv.len(),
        forall|k: int|
            0 <= k < rv.len() ==> 0 <= sum_weighted((#[trigger] rv[k]).languages),
    ensures
        total_weight(rv.take(i)) + sum_weighted(rv[i].languages) <= total_weight(rv),
    decreases rv.len() - i,
{
    if i == rv.len() - 1 {
        assert(rv.take(i + 1) =~= rv);
        lemma_total_weight_push(rv.take(i), rv[i]);
        assert(rv.take(i).push(rv[i]) =~= rv.take(i + 1));
    } else {
        lemma_total_weight_take_mono(rv, i + 1);
        lemma_total_weight_push(rv.take(i), rv[i]);
        assert(rv.take(i).push(rv[i]) =~= rv.take(i + 1));
        assert(0 <= sum_weighted(rv[i + 1].languages));
    }
}

} // verus!

verus! {

use crate::model::lemma_contributions_sum;
use crate::sort::{sort_languages, sort_partials, sorted_desc_languages, sorted_desc_partials};

broadcast use vstd::seq_lib::group_to_multiset_ensures;


/// What the aggregation guarantees of every language in the final ranking,
/// measured against the weighted repositories `rv`.
pub open spec fn ranked_language(l: LanguageView, rv: Seq<RepositoryView>) -> bool {
    &&& l.stars > 0
    &&& l.stars == lang_total(rv, l.name)
    &&& l.stars == sum_partials(l.source)
    &&& l.source.to_multiset() == contributions(rv, l.name).to_multiset()
    &&& sorted_desc_partials(l.source)
    &&& l.color == first_color(rv, l.name)
}

/// The per-element facts the filter phase hands to the sort phase.
spec fn kept_facts(fls: Seq<LanguageView>, rv: Seq<RepositoryView>) -> bool {
    forall|q: int|
        0 <= q < fls.len() ==> {
            let l = #[trigger] fls[q];
            &&& l.stars > 0
            &&& l.stars == lang_total(rv, l.name)
            &&& l.source == contributions(rv, l.name)
            &&& l.color == first_color(rv, l.name)
        }
}

/// Drops every accumulator whose total is not strictly positive.  The
/// returned ghost sequence maps each survivor back to its accumulator, in
/// increasing order, and the ghost map locates each positive accumulator
/// among the survivors.
fn keep_positive(accs: &Vec<Language>) -> (res: (Vec<Language>, Ghost<Seq<int>>, Ghost<Map<int, int>>))
    ensures
        ({
            let kept = res.0;
            let wit = res.1@;
            let pos = res.2@;
            let als = language_views(accs@);
            &&& wit.len() == kept@.len()
            &&& forall|q: int|
                0 <= q < kept@.len() ==> 0 <= #[trigger] wit[q] < als.len() && kept@[q]@
                    == als[wit[q]]
            &&& forall|q1: int, q2: int| 0 <= q1 < q2 < kept@.len() ==> wit[q1] < wit[q2]
            &&& forall|q: int| 0 <= q < kept@.len() ==> (#[trigger] kept@[q])@.stars > 0
            &&& forall|k: int|
                0 <= k < als.len() && (#[trigger] als[k]).stars > 0 ==> pos.dom().contains(k)
                    && 0 <= pos.index(k) < kept@.len() && kept@[pos.index(k)]@ == als[k]
        }),
{
    let ghost als = language_views(accs@);
    let mut kept: Vec<Language> = Vec::new();
    let ghost mut wit: Seq<int> = Seq::empty();
    let ghost mut pos: Map<int, int> = Map::empty();
    let mut k: usize = 0;
    while k < accs.len()
        invariant
            k <= als.len(),
            als == language_views(accs@),
            wit.len() == kept@.len(),
            forall|q: int|
                0 <= q < kept@.len() ==> 0 <= #[trigger] wit[q] < k && kept@[q]@ == als[wit[q]],
            forall|q1: int, q2: int| 0 <= q1 < q2 < kept@.len() ==> wit[q1] < wit[q2],
            forall|q: int| 0 <= q < kept@.len() ==> (#[trigger] kept@[q])@.stars > 0,
            forall|k2: int|
                0 <= k2 < k && (#[trigger] als[k2]).stars > 0 ==> pos.dom().contains(k2)
                    && 0 <= pos.index(k2) < kept@.len() && kept@[pos.index(k2)]@ == als[k2],
        decreases als.len() - k,
    {
        if accs[k].stars > 0 {
            let c = Language::clone(&accs[k]);
            proof {
                assert(c@ == als[k as int]);
            }
            kept.push(c);
            proof {
                wit = wit.push(k as int);
                pos = pos.insert(k as int, kept@.len() - 1);
                assert(kept@[kept@.len() - 1]@ == als[k as int]);
            }
        }
        k = k + 1;
    }
    (kept, Ghost(wit), Ghost(pos))
}

/// Sorting permutes the survivors: every fact they carried, their distinct
/// names, and the presence of every positive language survive into the
/// sorted order.
proof fn lemma_sorted_transfer(
    fls: Seq<LanguageView>,
    sls: Seq<LanguageView>,
    als: Seq<LanguageView>,
    rv: Seq<RepositoryView>,
    wit: Seq<int>,
    pos: Map<int, int>,
)
    requires
        sls.to_multiset() == fls.to_multiset(),
        agg_invariant(als, rv),
        wit.len() == fls.len(),
        forall|q: int|
            0 <= q < fls.len() ==> 0 <= #[trigger] wit[q] < als.len() && fls[q] == als[wit[q]],
        forall|q1: int, q2: int| 0 <= q1 < q2 < fls.len() ==> wit[q1] < wit[q2],
        forall|q: int| 0 <= q < fls.len() ==> (#[trigger] fls[q]).stars > 0,
        forall|k: int|
            0 <= k < als.len() && (#[trigger] als[k]).stars > 0 ==> pos.dom().contains(k) && 0
                <= pos.index(k) < fls.len() && fls[pos.index(k)] == als[k],
    ensures
        kept_facts(sls, rv),
        forall|q1: int, q2: int| 0 <= q1 < q2 < sls.len() ==> sls[q1].name != sls[q2].name,
        forall|n: Seq<char>|
            #[trigger] lang_total(rv, n) > 0 ==> exists|q: int|
                0 <= q < sls.len() && (#[trigger] sls[q]).name == n,
{
    broadcast use vstd::seq_lib::group_to_multiset_ensures;

    assert(kept_facts(fls, rv)) by {
        assert forall|q: int| 0 <= q < fls.len() implies {
            let l = #[trigger] fls[q];
            &&& l.stars > 0
            &&& l.stars == lang_total(rv, l.name)
            &&& l.source == contributions(rv, l.name)
            &&& l.color == first_color(rv, l.name)
        } by {
            assert(fls[q] == als[wit[q]]);
            assert(als[wit[q]].stars == lang_total(rv, als[wit[q]].name));
        }
    }
    assert forall|q1: int, q2: int| 0 <= q1 < q2 < fls.len() implies fls[q1].name != fls[
    q2].name by {
        assert(wit[q1] < wit[q2]);
        assert(als[wit[q1]].name != als[wit[q2]].name);
    }
    assert forall|q: int| 0 <= q < sls.len() implies exists|p: int|
        0 <= p < fls.len() && fls[p] == (#[trigger] sls[q]) by {
        assert(sls.contains(sls[q]));
        assert(sls.to_multiset().count(sls[q]) > 0);
        assert(fls.to_multiset().count(sls[q]) > 0);
        assert(fls.contains(sls[q]));
    }
    assert forall|q: int| 0 <= q < sls.len() implies {
        let l = #[trigger] sls[q];
        &&& l.stars > 0
        &&& l.stars == lang_total(rv, l.name)
        &&& l.source == contributions(rv, l.name)
        &&& l.color == first_color(rv, l.name)
    } by {
        let p = choose|p: int| 0 <= p < fls.len() && fls[p] == sls[q];
    }
    assert(fls.no_duplicates()) by {
        assert forall|q1: int, q2: int|
            0 <= q1 < fls.len() && 0 <= q2 < fls.len() && q1 != q2 implies fls[q1] != fls[q2] by {
            if q1 < q2 {
                assert(fls[q1].name != fls[q2].name);
            } else {
                assert(fls[q2].name != fls[q1].name);
            }
        }
    }
    fls.lemma_multiset_has_no_duplicates();
    sls.lemma_multiset_has_no_duplicates_conv();
    assert forall|q1: int, q2: int| 0 <= q1 < q2 < sls.len() implies sls[q1].name != sls[
    q2].name by {
        if sls[q1].name == sls[q2].name {
            let p1 = choose|p: int| 0 <= p < fls.len() && fls[p] == sls[q1];
            let p2 = choose|p: int| 0 <= p < fls.len() && fls[p] == sls[q2];
            assert(sls[q1] != sls[q2]);
            assert(p1 != p2);
            if p1 < p2 {
                assert(fls[p1].name != fls[p2].name);
            } else {
                assert(fls[p2].name != fls[p1].name);
            }
            assert(false);
        }
    }
    assert forall|n: Seq<char>| #[trigger] lang_total(rv, n) > 0 implies exists|q: int|
        0 <= q < sls.len() && (#[trigger] sls[q]).name == n by {
        assert(has_lang(rv, n)) by {
            if !has_lang(rv, n) {
                lemma_lang_total_absent(rv, n);
            }
        }
        let (a, b) = choose|a: int, b: int|
            0 <= a < rv.len() && 0 <= b < rv[a].languages.len() && rv[a].languages[b].name == n;
        let k2 = choose|k2: int| 0 <= k2 < als.len() && (#[trigger] als[k2]).name == n;
        assert(als[k2].stars == lang_total(rv, n));
        let q0 = pos.index(k2);
        assert(fls[q0] == als[k2]);
        assert(fls.contains(fls[q0]));
        assert(fls.to_multiset().count(fls[q0]) > 0);
        assert(sls.to_multiset().count(fls[q0]) > 0);
        assert(sls.contains(fls[q0]));
        let q = choose|q: int| 0 <= q < sls.len() && sls[q] == fls[q0];
        assert(sls[q].name == n);
    }
}

impl User {
    /// Merges the weighted repositories into the final per-language
    /// ranking: one entry per language with a strictly positive total,
    /// carrying exactly the account-wide total, the positive contributions
    /// as sources, and the first-seen color; languages are sorted by
    /// descending total, each source list by descending weight.
    #[verifier::rlimit(100)]
    pub fn merge_and_sort(&mut self)
        requires
            forall|i: int|
                0 <= i < old(self).repositories@.len() ==> sum_weighted(
                    (#[trigger] repository_views(old(self).repositories@)[i]).languages,
                ) <= repository_views(old(self).repositories@)[i].stars * (crate::SCALE as int),
        ensures
            final(self).name == old(self).name,
            final(self).login == old(self).login,
            final(self).stars == old(self).stars,
            final(self).repositories == old(self).repositories,
            sorted_desc_languages(language_views(final(self).languages@)),
            forall|k: int|
                0 <= k < language_views(final(self).languages@).len() ==> ranked_language(
                    #[trigger] language_views(final(self).languages@)[k],
                    repository_views(old(self).repositories@),
                ),
            forall|k1: int, k2: int|
                0 <= k1 < k2 < language_views(final(self).languages@).len() ==> language_views(
                    final(self).languages@,
                )[k1].name != language_views(final(self).languages@)[k2].name,
            forall|n: Seq<char>|
                #[trigger] lang_total(repository_views(old(self).repositories@), n) > 0
                    ==> exists|k: int|
                    0 <= k < language_views(final(self).languages@).len() && (
                    #[trigger] language_views(final(self).languages@)[k]).name == n,
    {
        let ghost rv = repository_views(self.repositories@);
        let accs = aggregate_languages(&self.repositories);
        let ghost als = language_views(accs@);
        let (mut kept, wit_g, pos_g) = keep_positive(&accs);
        let ghost wit = wit_g@;
        let ghost pos = pos_g@;
        let ghost fls = language_views(kept@);
        proof {
            assert(forall|q: int| 0 <= q < fls.len() ==> (#[trigger] fls[q]) == kept@[q]@);
        }
        sort_languages(&mut kept);
        let ghost sls = language_views(kept@);
        proof {
            lemma_sorted_transfer(fls, sls, als, rv, wit, pos);
        }
        let mut k3: usize = 0;
        while k3 < kept.len()
            invariant
                k3 <= kept@.len(),
                kept@.len() == sls.len(),
                rv == repository_views(self.repositories@),
                *self == *old(self),
                sorted_desc_languages(language_views(kept@)),
                forall|q: int|
                    0 <= q < sls.len() ==> {
                        let l = #[trigger] language_views(kept@)[q];
                        &&& l.name == sls[q].name
                        &&& l.stars == sls[q].stars
                        &&& l.color == sls[q].color
                    },
                kept_facts(sls, rv),
                forall|q1: int, q2: int| 0 <= q1 < q2 < sls.len() ==> sls[q1].name != sls[q2].name,
                forall|n: Seq<char>|
                    #[trigger] lang_total(rv, n) > 0 ==> exists|q: int|
                        0 <= q < sls.len() && (#[trigger] sls[q]).name == n,
                forall|q: int|
                    k3 <= q < sls.len() ==> (#[trigger] language_views(kept@)[q]).source == sls[
                    q].source,
                forall|q: int|
                    0 <= q < k3 ==> {
                        let l = #[trigger] language_views(kept@)[q];
                        &&& sorted_desc_partials(l.source)
                        &&& l.source.to_multiset() == sls[q].source.to_multiset()
                        &&& sum_partials(l.source) == sum_partials(sls[q].source)
                    },
            decreases sls.len() - k3,
        {
            let ghost pre = language_views(kept@);
            let mut l = kept.remove(k3);
            proof {
                assert(l@ == pre[k3 as int]);
            }
            sort_partials(&mut l.source);
            kept.insert(k3, l);
            proof {
                let now = language_views(kept@);
                assert(now =~= pre.update(k3 as int, l@));
                assert(l@.name == pre[k3 as int].name);
                assert(l@.stars == pre[k3 as int].stars);
                assert(l@.color == pre[k3 as int].color);
                assert forall|q1: int, q2: int| 0 <= q1 < q2 < now.len() implies (
                #[trigger] now[q1]).stars >= (#[trigger] now[q2]).stars by {
                    assert(now[q1].stars == pre[q1].stars);
                    assert(now[q2].stars == pre[q2].stars);
                }
            }
            k3 = k3 + 1;
        }
        self.languages = kept;
        proof {
            let ls = language_views(self.languages@);
            assert forall|k2: int| 0 <= k2 < ls.len() implies ranked_language(
                #[trigger] ls[k2],
                rv,
            ) by {
                assert(ls[k2].name == sls[k2].name);
                assert(ls[k2].stars == sls[k2].stars);
                assert(ls[k2].color == sls[k2].color);
                assert(sls[k2].stars == lang_total(rv, sls[k2].name));
                assert(sls[k2].source == contributions(rv, sls[k2].name));
                assert(sum_partials(sls[k2].source) == lang_total(rv, sls[k2].name)) by {
                    assert(forall|i: int, j: int|
                        0 <= i < rv.len() && 0 <= j < rv[i].languages.len() ==> 0 <= (
                        #[trigger] rv[i].languages[j]).stars) by {
                        assert(forall|i: int, j: int|
                            0 <= i < rv.len() && 0 <= j < rv[i].languages.len() ==> (#[trigger] rv[
                            i].languages[j]) == self.repositories@[i].languages@[j]@);
                    }
                    lemma_contributions_sum(rv, sls[k2].name);
                }
            }
            assert forall|n: Seq<char>| #[trigger] lang_total(rv, n) > 0 implies exists|k2: int|
                0 <= k2 < ls.len() && (#[trigger] ls[k2]).name == n by {
                let q = choose|q: int| 0 <= q < sls.len() && (#[trigger] sls[q]).name == n;
                assert(ls[q].name == n);
            }
        }
    }
}

} // verus!

verus! {

/// Mathematical image of a [`User`].
#[verifier::ext_equal]
pub struct UserView {
    pub name: Seq<char>,
    pub languages: Seq<LanguageView>,
    pub stars: int,
    pub login: Seq<char>,
    pub repositories: Seq<RepositoryView>,
}

impl View for User {
    type V = UserView;

    open spec fn view(&self) -> UserView {
        UserView {
            name: self.name@,
            languages: language_views(self.languages@),
            stars: self.stars as int,
            login: self.login@,
            repositories: repository_views(self.repositories@),
        }
    }
}

impl Clone for User {
    /// An exact copy: the views agree.
    fn clone(&self) -> (res: Self)
        ensures
            res@ == self@,
    {
        let mut repositories: Vec<Repository> = Vec::new();
        let mut i: usize = 0;
        while i < self.repositories.len()
            invariant
                i <= self.repositories@.len(),
                repositories@.len() == i,
                forall|k: int|
                    0 <= k < i ==> (#[trigger] repositories@[k])@ == self.repositories@[k]@,
            decreases self.repositories@.len() - i,
        {
            let r = Repository::clone(&self.repositories[i]);
            assert(r@ == self.repositories@[i as int]@);
            repositories.push(r);
            i = i + 1;
        }
        let res = User {
            name: self.name.clone(),
            languages: crate::model::clone_languages(&self.languages),
            stars: self.stars,
            login: self.login.clone(),
            repositories,
        };
        proof {
            assert(repository_views(res.repositories@) =~= repository_views(self.repositories@));
            assert(res@ =~= self@);
        }
        res
    }
}

impl User {
    /// Runs the whole computation over the fetched repositories: the weight
    /// distribution, then the merge into the sorted per-language ranking.
    pub fn finalize(&mut self)
        ensures
            final(self).name == old(self).name,
            final(self).login == old(self).login,
            final(self).stars as int == sum_repo_stars(repository_views(old(self).repositories@)),
            weighted_repos(
                repository_views(old(self).repositories@),
                repository_views(final(self).repositories@),
            ),
            sorted_desc_languages(language_views(final(self).languages@)),
            forall|k: int|
                0 <= k < language_views(final(self).languages@).len() ==> ranked_language(
                    #[trigger] language_views(final(self).languages@)[k],
                    repository_views(final(self).repositories@),
                ),
            forall|k1: int, k2: int|
                0 <= k1 < k2 < language_views(final(self).languages@).len() ==> language_views(
                    final(self).languages@,
                )[k1].name != language_views(final(self).languages@)[k2].name,
            forall|n: Seq<char>|
                #[trigger] lang_total(repository_views(final(self).repositories@), n) > 0
                    ==> exists|k: int|
                    0 <= k < language_views(final(self).languages@).len() && (
                    #[trigger] language_views(final(self).languages@)[k]).name == n,
    {
        self.calculate();
        self.merge_and_sort();
    }
}

} // verus!
