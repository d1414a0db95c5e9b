use vstd::prelude::*;

verus! {

use crate::account::User;
use crate::model::{Language, LanguageView, language_views};
use vstd::string::StrSliceExecFns;

/// The raw filter parameters exactly as a caller supplies them.
pub struct RawConfig {
    pub exclude: Option<String>,
    pub top: Option<usize>,
    pub status: Option<String>,
}

/// The archived-state filter: all repositories, only active ones, or only
/// archived ones.
pub enum Status {
    All,
    Active,
    Archived,
}

/// A validated filter configuration.
pub struct Config {
    pub exclude: Vec<String>,
    pub top: usize,
    pub status: Status,
}

/// The ASCII whitespace stripped from the ends of an exclude entry.
pub open spec fn is_space(c: char) -> bool {
    c == ' ' || c == '\t' || c == '\n' || c == '\r'
}

/// The input without its leading whitespace.
pub open spec fn trim_front(s: Seq<char>) -> Seq<char>
    decreases s.len(),
{
    if s.len() > 0 && is_space(s.first()) {
        trim_front(s.drop_first())
    } else {
        s
    }
}

/// The input without its trailing whitespace.
pub open spec fn trim_back(s: Seq<char>) -> Seq<char>
    decreases s.len(),
{
    if s.len() > 0 && is_space(s.last()) {
        trim_back(s.drop_last())
    } else {
        s
    }
}

/// The input without leading and trailing whitespace.
pub open spec fn trim_spec(s: Seq<char>) -> Seq<char> {
    trim_back(trim_front(s))
}

/// The comma-separated segments of the input: one more segment than there
/// are commas, in order, commas dropped.
pub open spec fn split_commas(s: Seq<char>) -> Seq<Seq<char>>
    decreases s.len(),
{
    if s.len() == 0 {
        seq![Seq::<char>::empty()]
    } else if s.first() == ',' {
        seq![Seq::<char>::empty()] + split_commas(s.drop_first())
    } else {
        let r = split_commas(s.drop_first());
        seq![seq![s.first()] + r.first()] + r.drop_first()
    }
}

/// There is always at least one segment.
pub proof fn lemma_split_len(s: Seq<char>)
    ensures
        split_commas(s).len() >= 1,
    decreases s.len(),
{
    if s.len() > 0 {
        lemma_split_len(s.drop_first());
    }
}

/// Cutting at the first comma: everything before it is the first segment,
/// and the rest splits on its own.
proof fn lemma_split_at_comma(s: Seq<char>, k: int)
    requires
        0 <= k <= s.len(),
        forall|i: int| 0 <= i < k ==> s[i] != ',',
        k == s.len() || s[k] == ',',
    ensures
        k == s.len() ==> split_commas(s) == seq![s],
        k < s.len() ==> split_commas(s) == seq![s.take(k)] + split_commas(s.skip(k + 1)),
    decreases s.len(),
{
    lemma_split_len(s);
    if s.len() == 0 {
        assert(split_commas(s) =~~= seq![s]);
    } else if k == 0 {
        assert(s[0] == ',');
        assert(s.take(0) =~= Seq::<char>::empty());
        assert(s.skip(1) =~= s.drop_first());
        assert(split_commas(s) =~= seq![s.take(0)] + split_commas(s.skip(1)));
    } else {
        let d = s.drop_first();
        assert(s.first() != ',') by {
            assert(s[0] != ',');
        }
        assert(forall|i: int| 0 <= i < k - 1 ==> #[trigger] d[i] == s[i + 1]);
        lemma_split_at_comma(d, k - 1);
        lemma_split_len(d);
        let r = split_commas(d);
        if k == s.len() {
            assert(r == seq![d]);
            assert(seq![s.first()] + r.first() =~= s);
            assert(split_commas(s) =~= seq![s]);
        } else {
            assert(d[k - 1] == s[k]);
            assert(r == seq![d.take(k - 1)] + split_commas(d.skip(k)));
            assert(r.first() == d.take(k - 1));
            assert(seq![s.first()] + d.take(k - 1) =~= s.take(k));
            assert(r.drop_last() =~= seq![d.take(k - 1)] + split_commas(d.skip(k)).drop_last());
            assert(d.skip(k) =~= s.skip(k + 1));
            assert(r.drop_first() =~= split_commas(s.skip(k + 1)));
            assert(split_commas(s) =~= seq![s.take(k)] + split_commas(s.skip(k + 1)));
        }
    }
}

/// Strips leading and trailing whitespace, exactly as `trim_spec` says.
fn trim_str(s: &str) -> (res: &str)
    ensures
        res@ == trim_spec(s@),
{
    let n = s.unicode_len();
    let mut start: usize = 0;
    while start < n && is_space_char(s.get_char(start))
        invariant
            0 <= start <= n,
            n == s@.len(),
            forall|i: int| 0 <= i < start ==> is_space(s@[i]),
        decreases n - start,
    {
        start = start + 1;
    }
    proof {
        lemma_trim_front_at(s@, start as int);
    }
    let mut end: usize = n;
    while end > start && is_space_char(s.get_char(end - 1))
        invariant
            start <= end <= n,
            n == s@.len(),
            forall|i: int| end <= i < n ==> is_space(s@[i]),
            forall|i: int| 0 <= i < start ==> is_space(s@[i]),
            start == n || !is_space(s@[start as int]),
        decreases end,
    {
        end = end - 1;
    }
    let res = s.substring_char(start, end);
    proof {
        lemma_trim_back_at(s@.skip(start as int), end - start as int);
        assert(res@ =~= s@.skip(start as int).take(end - start as int));
    }
    res
}

/// Whether `c` is stripped by trimming.
fn is_space_char(c: char) -> (res: bool)
    ensures
        res == is_space(c),
{
    c == ' ' || c == '\t' || c == '\n' || c == '\r'
}

/// Leading whitespace ends exactly where the first non-space stands.
proof fn lemma_trim_front_at(s: Seq<char>, k: int)
    requires
        0 <= k <= s.len(),
        forall|i: int| 0 <= i < k ==> is_space(s[i]),
        k == s.len() || !is_space(s[k]),
    ensures
        trim_front(s) == s.skip(k),
    decreases k,
{
    if k == 0 {
        assert(s.skip(0) =~= s);
    } else {
        assert(is_space(s[0]));
        let d = s.drop_first();
        assert(forall|i: int| 0 <= i < k - 1 ==> #[trigger] d[i] == s[i + 1]);
        lemma_trim_front_at(d, k - 1);
        assert(d.skip(k - 1) =~= s.skip(k));
    }
}

/// Trailing whitespace starts exactly after the last non-space.
proof fn lemma_trim_back_at(s: Seq<char>, k: int)
    requires
        0 <= k <= s.len(),
        forall|i: int| k <= i < s.len() ==> is_space(s[i]),
        k == 0 || !is_space(s[k - 1]),
    ensures
        trim_back(s) == s.take(k),
    decreases s.len(),
{
    if k == s.len() {
        if s.len() > 0 && is_space(s.last()) {
            assert(!is_space(s[k - 1]));
            assert(false);
        }
        assert(s.take(k) =~= s);
    } else {
        assert(is_space(s.last()));
        let d = s.drop_last();
        lemma_trim_back_at(d, k);
        assert(d.take(k) =~= s.take(k));
    }
}

/// Case-insensitive equality over ASCII letters.
pub open spec fn eq_ignore_case(a: Seq<char>, b: Seq<char>) -> bool {
    a.len() == b.len() && forall|i: int| 0 <= i < a.len() ==> char_eq_ci(a[i], #[trigger] b[i])
}

/// Two characters equal up to ASCII case.
pub open spec fn char_eq_ci(x: char, y: char) -> bool {
    ||| x == y
    ||| (x as int == y as int + 32 && 65 <= y as int <= 90)
    ||| (y as int == x as int + 32 && 65 <= x as int <= 90)
}

/// Compares two strings, treating ASCII letters case-insensitively.
fn str_eq_ci(a: &str, b: &str) -> (res: bool)
    ensures
        res == eq_ignore_case(a@, b@),
{
    let na = a.unicode_len();
    let nb = b.unicode_len();
    if na != nb {
        return false;
    }
    let mut i: usize = 0;
    while i < na
        invariant
            0 <= i <= na,
            na == a@.len(),
            na == b@.len(),
            forall|q: int| 0 <= q < i ==> char_eq_ci(a@[q], #[trigger] b@[q]),
        decreases na - i,
    {
        let x = a.get_char(i);
        let y = b.get_char(i);
        let xi = x as u32;
        let yi = y as u32;
        let same = xi == yi || (xi == yi + 32 && 65 <= yi && yi <= 90) || (yi == xi + 32 && 65
            <= xi && xi <= 90);
        if !same {
            assert(!char_eq_ci(a@[i as int], b@[i as int]));
            return false;
        }
        assert(char_eq_ci(a@[i as int], b@[i as int]));
        i = i + 1;
    }
    true
}

/// How a raw status word maps to the archived-state filter: `archived` and
/// `active` are recognized up to ASCII case, anything else means no filter.
pub open spec fn status_of(s: Option<Seq<char>>) -> Status {
    match s {
        None => Status::All,
        Some(w) => if eq_ignore_case(w, "archived"@) {
            Status::Archived
        } else if eq_ignore_case(w, "active"@) {
            Status::Active
        } else {
            Status::All
        },
    }
}

impl Config {
    /// Validates raw parameters: the exclude list is split on commas and
    /// trimmed, a missing or zero `top` means unlimited, and the status
    /// word is matched case-insensitively.
    pub fn from_raw(config: &RawConfig) -> (res: Self)
        ensures
            ({
                let ex = match config.exclude {
                    Some(e) => split_commas(e@).map_values(|seg: Seq<char>| trim_spec(seg)),
                    None => Seq::<Seq<char>>::empty(),
                };
                &&& res.exclude@.map_values(|x: String| x@) == ex
                &&& res.top == match config.top {
                    Some(t) => t,
                    None => 0,
                }
                &&& res.status == status_of(
                    match &config.status {
                        Some(s) => Some(s@),
                        None => None,
                    },
                )
            }),
    {
        let status = match &config.status {
            Some(value) => {
                if str_eq_ci(value.as_str(), "archived") {
                    Status::Archived
                } else if str_eq_ci(value.as_str(), "active") {
                    Status::Active
                } else {
                    Status::All
                }
            },
            None => Status::All,
        };
        let top = match config.top {
            Some(t) => t,
            None => 0,
        };
        let exclude: Vec<String> = match &config.exclude {
            Some(e) => split_and_trim(e.as_str()),
            None => {
                let v: Vec<String> = Vec::new();
                assert(v@.map_values(|x: String| x@) =~= Seq::<Seq<char>>::empty());
                v
            },
        };
        Config { exclude, top, status }
    }
}

/// Splits on commas and trims each segment.
fn split_and_trim(s: &str) -> (res: Vec<String>)
    ensures
        res@.map_values(|x: String| x@) == split_commas(s@).map_values(
            |seg: Seq<char>| trim_spec(seg),
        ),
{
    let n = s.unicode_len();
    let mut out: Vec<String> = Vec::new();
    let mut p: usize = 0;
    let ghost target = split_commas(s@).map_values(|seg: Seq<char>| trim_spec(seg));
    proof {
        lemma_split_len(s@);
        assert(s@.skip(0) =~= s@);
        assert(out@.map_values(|x: String| x@) =~= Seq::<Seq<char>>::empty());
        assert(out@.map_values(|x: String| x@) + split_commas(s@.skip(0)).map_values(
            |seg: Seq<char>| trim_spec(seg),
        ) =~= target);
    }
    loop
        invariant_except_break
            0 <= p <= n,
            n == s@.len(),
            target == split_commas(s@).map_values(|seg: Seq<char>| trim_spec(seg)),
            out@.map_values(|x: String| x@) + split_commas(s@.skip(p as int)).map_values(
                |seg: Seq<char>| trim_spec(seg),
            ) == target,
        ensures
            out@.map_values(|x: String| x@) == target,
        decreases n - p,
    {
        // find the next comma at or after p
        let mut c: usize = p;
        while c < n && s.get_char(c) != ','
            invariant
                p <= c <= n,
                n == s@.len(),
                forall|i: int| p <= i < c ==> s@[i] != ',',
            decreases n - c,
        {
            c = c + 1;
        }
        let seg = trim_str(s.substring_char(p, c));
        let seg_string = seg.to_string();
        let ghost pre = out@.map_values(|x: String| x@);
        out.push(seg_string);
        proof {
            let suffix = s@.skip(p as int);
            assert(forall|i: int| 0 <= i < c - p ==> #[trigger] suffix[i] == s@[i + p]);
            lemma_split_at_comma(suffix, c - p as int);
            assert(suffix.take(c - p as int) =~= s@.subrange(p as int, c as int));
            assert(seg_string@ == trim_spec(s@.subrange(p as int, c as int)));
            assert(out@.map_values(|x: String| x@) =~= pre.push(seg_string@));
            if c < n {
                assert(suffix[c - p as int] == ',');
                assert(split_commas(suffix) == seq![suffix.take(c - p as int)] + split_commas(
                    suffix.skip(c - p as int + 1),
                ));
                assert(suffix.skip(c - p as int + 1) =~= s@.skip(c as int + 1));
                assert(split_commas(suffix).map_values(|seg: Seq<char>| trim_spec(seg))
                    =~= seq![trim_spec(suffix.take(c - p as int))] + split_commas(
                    s@.skip(c as int + 1),
                ).map_values(|seg: Seq<char>| trim_spec(seg)));
                assert(out@.map_values(|x: String| x@) + split_commas(
                    s@.skip(c as int + 1),
                ).map_values(|seg: Seq<char>| trim_spec(seg)) =~= target);
            } else {
                assert(split_commas(suffix) == seq![suffix]);
                assert(suffix.take(c - p as int) =~= suffix);
                assert(split_commas(suffix).map_values(|seg: Seq<char>| trim_spec(seg))
                    =~= seq![trim_spec(suffix)]);
                assert(out@.map_values(|x: String| x@) =~= target);
            }
        }
        if c < n {
            p = c + 1;
        } else {
            break;
        }
    }
    proof {
        assert(out@.map_values(|x: String| x@) =~= target);
    }
    out
}

/// Whether `name` stands in the exclude list.
fn is_excluded(exclude: &Vec<String>, name: &String) -> (res: bool)
    ensures
        res == exists|i: int| 0 <= i < exclude@.len() && (#[trigger] exclude@[i])@ == name@,
{
    let mut i: usize = 0;
    while i < exclude.len()
        invariant
            0 <= i <= exclude@.len(),
            forall|q: int| 0 <= q < i ==> (#[trigger] exclude@[q])@ != name@,
        decreases exclude@.len() - i,
    {
        if exclude[i] == *name {
            assert(exclude@[i as int]@ == name@);
            return true;
        }
        assert(exclude@[i as int]@ != name@);
        i = i + 1;
    }
    false
}

/// Whether the filter drops a language of this name.
pub open spec fn excluded_spec(exclude: Seq<Seq<char>>, name: Seq<char>) -> bool {
    exists|i: int| 0 <= i < exclude.len() && #[trigger] exclude[i] == name
}

/// The languages that survive the exclude list, in order.
pub open spec fn surviving(ls: Seq<LanguageView>, exclude: Seq<Seq<char>>) -> Seq<LanguageView>
    decreases ls.len(),
{
    if ls.len() == 0 {
        Seq::empty()
    } else {
        let r = surviving(ls.drop_last(), exclude);
        if !excluded_spec(exclude, ls.last().name) {
            r.push(ls.last())
        } else {
            r
        }
    }
}

/// Applies a caller's filter to a computed result: languages on the
/// exclude list are dropped, then the list is cut to the first `top`
/// entries (zero meaning unlimited).  The cached result itself is not
/// touched.
pub fn apply_filter(user: &User, config: &Config) -> (res: User)
    ensures
        res@.name == user@.name,
        res@.login == user@.login,
        res@.stars == user@.stars,
        ({
            let kept = surviving(user@.languages, config.exclude@.map_values(|x: String| x@));
            res@.languages == if config.top == 0 || kept.len() <= config.top as int {
                kept
            } else {
                kept.take(config.top as int)
            }
        }),
{
    let ghost exv = config.exclude@.map_values(|x: String| x@);
    let mut languages: Vec<Language> = Vec::new();
    let mut i: usize = 0;
    proof {
        assert(user@.languages.take(0) =~= Seq::<LanguageView>::empty());
        assert(surviving(user@.languages.take(0), exv) =~= Seq::<LanguageView>::empty());
        assert(language_views(languages@) =~= Seq::<LanguageView>::empty());
    }
    while i < user.languages.len()
        invariant
            0 <= i <= user.languages@.len(),
            exv == config.exclude@.map_values(|x: String| x@),
            user@.languages == language_views(user.languages@),
            language_views(languages@) == surviving(user@.languages.take(i as int), exv),
        decreases user.languages@.len() - i,
    {
        let lang = &user.languages[i];
        let keep = !is_excluded(&config.exclude, &lang.name);
        let ghost prefix = user@.languages.take(i as int);
        proof {
            assert(user@.languages[i as int] == lang@);
            assert(user@.languages.take(i as int + 1) =~= prefix.push(lang@));
            assert(keep == !excluded_spec(exv, lang@.name)) by {
                if excluded_spec(exv, lang@.name) {
                    let q = choose|q: int| 0 <= q < exv.len() && #[trigger] exv[q] == lang@.name;
                    assert(config.exclude@[q]@ == lang@.name);
                }
                if exists|q: int|
                    0 <= q < config.exclude@.len() && (#[trigger] config.exclude@[q])@
                        == lang@.name {
                    let q = choose|q: int|
                        0 <= q < config.exclude@.len() && (#[trigger] config.exclude@[q])@
                            == lang@.name;
                    assert(exv[q] == lang@.name);
                }
            }
        }
        proof {
            assert(prefix.push(lang@).drop_last() =~= prefix);
            assert(prefix.push(lang@).last() == lang@);
        }
        if keep {
            let ghost pre = language_views(languages@);
            languages.push(Language::clone(lang));
            proof {
                assert(language_views(languages@) =~= pre.push(lang@));
                assert(surviving(prefix.push(lang@), exv) == surviving(prefix, exv).push(lang@));
            }
        } else {
            proof {
                assert(surviving(prefix.push(lang@), exv) == surviving(prefix, exv));
            }
        }
        i = i + 1;
    }
    proof {
        assert(user@.languages.take(user.languages@.len() as int) =~= user@.languages);
    }
    // cut to the first `top` entries
    let mut out: Vec<Language> = Vec::new();
    let ghost kept = surviving(user@.languages, exv);
    let cap: usize = if config.top == 0 || config.top > languages.len() {
        languages.len()
    } else {
        config.top
    };
    let mut j: usize = 0;
    proof {
        assert(language_views(out@) =~= Seq::<LanguageView>::empty());
        assert(kept.take(0) =~= Seq::<LanguageView>::empty());
    }
    while j < cap
        invariant
            0 <= j <= cap <= languages@.len(),
            language_views(languages@) == kept,
            language_views(out@) == kept.take(j as int),
        decreases cap - j,
    {
        let ghost pre = language_views(out@);
        out.push(Language::clone(&languages[j]));
        proof {
            assert(language_views(languages@)[j as int] == languages@[j as int]@);
            assert(language_views(out@) =~= pre.push(kept[j as int]));
            assert(kept.take(j as int + 1).drop_last() =~= kept.take(j as int));
            assert(kept.take(j as int + 1).last() == kept[j as int]);
            assert(language_views(out@) =~= kept.take(j as int + 1));
        }
        j = j + 1;
    }
    let res = User {
        name: user.name.clone(),
        languages: out,
        stars: user.stars,
        login: user.login.clone(),
        repositories: Vec::new(),
    };
    proof {
        if config.top == 0 || kept.len() <= config.top as int {
            assert(kept.take(cap as int) =~= kept);
        }
        assert(res@.languages == language_views(res.languages@));
    }
    res
}

} // verus!
