//! Decisions of the app launcher popover: the listed apps, how a query scores an app,
//! and the ranked results.

use vstd::prelude::*;

use crate::text::{
    chars_lt, chars_of, contains, is_white_space, lemma_chars_lt_order, lowercase, occurs_at,
    occurs_at_exec, seq_contains, seq_starts_with, starts_with, str_lt, to_lowercase, trim,
    trimmed, white_space,
};

verus! {

/// An installed application as the launcher lists it. `id` identifies the application
/// in the caller's list of installed applications; the lowercase fields serve the
/// search.
#[derive(Debug)]
pub struct LauncherApp {
    pub id: usize,
    pub name: String,
    pub name_lower: String,
    pub subtitle: Option<String>,
    pub subtitle_lower: String,
}

/// Options of the launcher popover: the search entry's placeholder and the most
/// results listed.
#[derive(Debug)]
pub struct LauncherPopoverOptions {
    pub placeholder: String,
    pub max_results: usize,
}

/// The characters of an optional string.
pub open spec fn opt_chars(s: Option<&str>) -> Option<Seq<char>> {
    match s {
        Some(t) => Some(t@),
        None => None,
    }
}

/// The trimmed text, when it is not empty.
pub open spec fn nonempty_trimmed(s: Option<Seq<char>>) -> Option<Seq<char>> {
    match s {
        Some(t) => if trimmed(t).len() > 0 { Some(trimmed(t)) } else { None },
        None => None,
    }
}

/// The name listed for an app: its trimmed display name, or its trimmed name when the
/// display name is blank.
pub open spec fn app_name(display_name: Seq<char>, name: Seq<char>) -> Seq<char> {
    if trimmed(display_name).len() == 0 {
        trimmed(name)
    } else {
        trimmed(display_name)
    }
}

/// The subtitle listed for an app: its trimmed generic name, else its trimmed
/// description, whichever is first not blank.
pub open spec fn app_subtitle(generic_name: Option<Seq<char>>, description: Option<Seq<char>>) -> Option<
    Seq<char>,
> {
    match nonempty_trimmed(generic_name) {
        Some(g) => Some(g),
        None => nonempty_trimmed(description),
    }
}

/// The text of an optional string, empty when absent.
pub open spec fn text_or_empty(s: Option<String>) -> Seq<char> {
    match s {
        Some(t) => t@,
        None => Seq::empty(),
    }
}

/// The trimmed text when it is not blank.
fn nonempty_trim(s: Option<&str>) -> (r: Option<String>)
    ensures
        match r {
            Some(t) => nonempty_trimmed(opt_chars(s)) == Some(t@),
            None => nonempty_trimmed(opt_chars(s)) is None,
        },
{
    match s {
        Some(t) => {
            let x = trim(t);
            if x.as_str().is_empty() {
                None
            } else {
                Some(x)
            }
        },
        None => None,
    }
}

/// The name and subtitle an app is listed with, from what its desktop file gives (see
/// `app_name` and `app_subtitle`).
pub fn listed_texts(
    display_name: &str,
    name: &str,
    generic_name: Option<&str>,
    description: Option<&str>,
) -> (r: (String, Option<String>))
    ensures
        r.0@ == app_name(display_name@, name@),
        match r.1 {
            Some(s) => app_subtitle(opt_chars(generic_name), opt_chars(description)) == Some(s@),
            None => app_subtitle(opt_chars(generic_name), opt_chars(description)) is None,
        },
{
    let display = trim(display_name);
    let listed = if display.as_str().is_empty() {
        trim(name)
    } else {
        display
    };
    let subtitle = match nonempty_trim(generic_name) {
        Some(g) => Some(g),
        None => nonempty_trim(description),
    };
    (listed, subtitle)
}

impl LauncherApp {
    /// The entry of the app `id` from what its desktop file gives: display name, name,
    /// generic name and description (see `listed_texts`), with the lowercase forms of
    /// name and subtitle.
    pub fn new(
        id: usize,
        display_name: &str,
        name: &str,
        generic_name: Option<&str>,
        description: Option<&str>,
    ) -> (r: Self)
        ensures
            r.id == id,
            r.name@ == app_name(display_name@, name@),
            match r.subtitle {
                Some(s) => app_subtitle(opt_chars(generic_name), opt_chars(description)) == Some(s@),
                None => app_subtitle(opt_chars(generic_name), opt_chars(description)) is None,
            },
            r.name_lower@ == lowercase(r.name@),
            r.subtitle_lower@ == lowercase(text_or_empty(r.subtitle)),
    {
        let (name, subtitle) = listed_texts(display_name, name, generic_name, description);
        let name_lower = to_lowercase(name.as_str());
        let subtitle_lower = match &subtitle {
            Some(s) => to_lowercase(s.as_str()),
            None => to_lowercase(""),
        };
        proof {
            if subtitle is None {
                reveal_strlit("");
                assert(""@ =~= Seq::<char>::empty());
            }
        }
        LauncherApp { id, name, name_lower, subtitle, subtitle_lower }
    }
}

/// Inserts `a` into apps ordered by lowercase name, after every app whose name does not
/// come after it: a stable sort places the apps this way in the order they arrive.
pub open spec fn insert_app(s: Seq<LauncherApp>, a: LauncherApp) -> Seq<LauncherApp>
    decreases s.len(),
{
    if s.len() == 0 {
        seq![a]
    } else if chars_lt(a.name_lower@, s.last().name_lower@) {
        insert_app(s.drop_last(), a).push(s.last())
    } else {
        s.push(a)
    }
}

/// The apps stably sorted by lowercase name.
pub open spec fn sorted_by_name(apps: Seq<LauncherApp>) -> Seq<LauncherApp>
    decreases apps.len(),
{
    if apps.len() == 0 {
        Seq::empty()
    } else {
        insert_app(sorted_by_name(apps.drop_last()), apps.last())
    }
}

/// No app's lowercase name comes before that of an app listed earlier.
pub open spec fn names_sorted(s: Seq<LauncherApp>) -> bool {
    forall|i: int, j: int|
        #![trigger s[i], s[j]]
        0 <= i < j < s.len() ==> !chars_lt(s[j].name_lower@, s[i].name_lower@)
}

/// `insert_app` puts `a` at `p` when every later app comes after it and the one before
/// does not.
proof fn lemma_insert_app_at(s: Seq<LauncherApp>, a: LauncherApp, p: int)
    requires
        0 <= p <= s.len(),
        forall|j: int| p <= j < s.len() ==> chars_lt(a.name_lower@, (#[trigger] s[j]).name_lower@),
        p == 0 || !chars_lt(a.name_lower@, s[p - 1].name_lower@),
    ensures
        insert_app(s, a) == s.take(p).push(a) + s.skip(p),
    decreases s.len(),
{
    if s.len() == 0 {
        assert(s.take(p).push(a) + s.skip(p) =~= seq![a]);
    } else if p == s.len() {
        assert(s.take(p).push(a) + s.skip(p) =~= s.push(a));
    } else {
        let t = s.drop_last();
        assert(p == 0 || t[p - 1] == s[p - 1]);
        assert forall|j: int| p <= j < t.len() implies chars_lt(a.name_lower@, (#[trigger] t[j]).name_lower@) by {
            assert(t[j] == s[j]);
        }
        lemma_insert_app_at(t, a, p);
        assert(s[s.len() - 1] == s.last());
        assert((t.take(p).push(a) + t.skip(p)).push(s.last()) =~= s.take(p).push(a) + s.skip(p));
    }
}

/// Inserting keeps every app and adds `a`.
pub proof fn lemma_insert_app_multiset(s: Seq<LauncherApp>, a: LauncherApp)
    ensures
        insert_app(s, a).to_multiset() == s.to_multiset().insert(a),
    decreases s.len(),
{
    broadcast use vstd::seq_lib::group_to_multiset_ensures, vstd::multiset::group_multiset_axioms;

    if s.len() > 0 && chars_lt(a.name_lower@, s.last().name_lower@) {
        let t = s.drop_last();
        lemma_insert_app_multiset(t, a);
        assert(t.push(s.last()) =~= s);
        assert(insert_app(s, a).to_multiset() =~= s.to_multiset().insert(a));
    }
}

/// Inserting keeps apps sorted by name.
proof fn lemma_insert_app_sorted(s: Seq<LauncherApp>, a: LauncherApp)
    requires
        names_sorted(s),
    ensures
        names_sorted(insert_app(s, a)),
    decreases s.len(),
{
    broadcast use vstd::seq_lib::group_to_multiset_ensures, vstd::multiset::group_multiset_axioms;

    if s.len() == 0 {
    } else if chars_lt(a.name_lower@, s.last().name_lower@) {
        let t = s.drop_last();
        let l = s.last();
        assert(names_sorted(t)) by {
            assert forall|i: int, j: int| 0 <= i < j < t.len() implies !chars_lt(
                (#[trigger] t[j]).name_lower@,
                (#[trigger] t[i]).name_lower@,
            ) by {
                assert(t[i] == s[i] && t[j] == s[j]);
            }
        }
        lemma_insert_app_sorted(t, a);
        lemma_insert_app_multiset(t, a);
        let r = insert_app(t, a);
        assert(s[s.len() - 1] == l);
        assert forall|i: int, j: int| 0 <= i < j < r.push(l).len() implies !chars_lt(
            (#[trigger] r.push(l)[j]).name_lower@,
            (#[trigger] r.push(l)[i]).name_lower@,
        ) by {
            if j == r.len() {
                let x = r[i];
                assert(r.to_multiset().count(x) > 0);
                if x == a {
                    lemma_chars_lt_order(a.name_lower@, l.name_lower@, l.name_lower@);
                } else {
                    assert(t.to_multiset().count(x) > 0);
                    assert(t.contains(x));
                    let k = choose|k: int| 0 <= k < t.len() && t[k] == x;
                    assert(s[k] == x);
                }
            } else {
                assert(r.push(l)[i] == r[i] && r.push(l)[j] == r[j]);
            }
        }
    } else {
        let l = s.last();
        assert(s[s.len() - 1] == l);
        assert forall|i: int, j: int| 0 <= i < j < s.push(a).len() implies !chars_lt(
            (#[trigger] s.push(a)[j]).name_lower@,
            (#[trigger] s.push(a)[i]).name_lower@,
        ) by {
            if j == s.len() {
                if i < s.len() - 1 {
                    assert(!chars_lt(s[s.len() - 1].name_lower@, s[i].name_lower@));
                    lemma_chars_lt_order(a.name_lower@, l.name_lower@, s[i].name_lower@);
                }
            } else {
                assert(s.push(a)[i] == s[i] && s.push(a)[j] == s[j]);
            }
        }
    }
}

/// The sorted apps are the same apps, ordered by lowercase name.
pub proof fn lemma_sorted_by_name(apps: Seq<LauncherApp>)
    ensures
        names_sorted(sorted_by_name(apps)),
        sorted_by_name(apps).to_multiset() == apps.to_multiset(),
        sorted_by_name(apps).len() == apps.len(),
    decreases apps.len(),
{
    broadcast use vstd::seq_lib::group_to_multiset_ensures, vstd::multiset::group_multiset_axioms;

    if apps.len() > 0 {
        lemma_sorted_by_name(apps.drop_last());
        lemma_insert_app_sorted(sorted_by_name(apps.drop_last()), apps.last());
        lemma_insert_app_multiset(sorted_by_name(apps.drop_last()), apps.last());
        assert(apps.drop_last().push(apps.last()) =~= apps);
    }
    assert(sorted_by_name(apps).to_multiset().len() == apps.to_multiset().len());
}

/// Inserts `a` among apps sorted by name, as `insert_app` does.
fn insert_app_in_order(v: &mut Vec<LauncherApp>, a: LauncherApp)
    ensures
        final(v)@ == insert_app(old(v)@, a),
{
    let mut p = v.len();
    loop
        invariant
            p <= v.len(),
            v@ == old(v)@,
            forall|j: int| p <= j < v.len() ==> chars_lt(a.name_lower@, (#[trigger] v@[j]).name_lower@),
        ensures
            p <= v.len(),
            v@ == old(v)@,
            forall|j: int| p <= j < v.len() ==> chars_lt(a.name_lower@, (#[trigger] v@[j]).name_lower@),
            p == 0 || !chars_lt(a.name_lower@, v@[p - 1].name_lower@),
        decreases p,
    {
        if p == 0 {
            break;
        }
        if !str_lt(a.name_lower.as_str(), v[p - 1].name_lower.as_str()) {
            break;
        }
        p = p - 1;
    }
    proof { lemma_insert_app_at(v@, a, p as int); }
    v.insert(p, a);
    assert(v@ =~= old(v)@.take(p as int).push(a) + old(v)@.skip(p as int));
}

/// The apps stably sorted by lowercase name, as the launcher lists them.
pub fn sort_apps(apps: Vec<LauncherApp>) -> (r: Vec<LauncherApp>)
    ensures
        r@ == sorted_by_name(apps@),
{
    let ghost all = apps@;
    assert(all.len() == apps.len());
    let mut rest = apps;
    let mut sorted: Vec<LauncherApp> = Vec::new();
    let mut k: usize = 0;
    assert(all.skip(0) =~= all);
    while rest.len() > 0
        invariant
            all.len() <= usize::MAX,
            k + rest@.len() == all.len(),
            rest@ == all.skip(k as int),
            sorted@ == sorted_by_name(all.take(k as int)),
        decreases rest.len(),
    {
        let a = rest.remove(0);
        assert(all.take(k + 1).drop_last() =~= all.take(k as int));
        assert(all[k as int] == a);
        insert_app_in_order(&mut sorted, a);
        k = k + 1;
        assert(rest@ =~= all.skip(k as int));
    }
    assert(all.take(k as int) =~= all);
    sorted
}

/// The query contains no white space.
pub open spec fn no_white_space(q: Seq<char>) -> bool {
    forall|k: int| 0 <= k < q.len() ==> !is_white_space(#[trigger] q[k])
}

/// The query occurs in `s` at `i`, where a word starts.
pub open spec fn starts_word_at(s: Seq<char>, q: Seq<char>, i: int) -> bool {
    &&& occurs_at(s, q, i)
    &&& (i == 0 || is_white_space(s[i - 1]))
}

/// Some word of `s` (a maximal run of characters that are not white space, as
/// `str::split_whitespace` gives them) starts with the non-empty query `q`.
pub open spec fn some_word_starts_with(s: Seq<char>, q: Seq<char>) -> bool {
    &&& no_white_space(q)
    &&& exists|i: int| starts_word_at(s, q, i)
}

/// Whether some word of `s` starts with `q`.
fn word_starts_with(s: &Vec<char>, q: &Vec<char>) -> (r: bool)
    ensures
        r == some_word_starts_with(s@, q@),
{
    let mut k: usize = 0;
    while k < q.len()
        invariant
            k <= q.len(),
            forall|j: int| 0 <= j < k ==> !is_white_space(#[trigger] q@[j]),
        decreases q.len() - k,
    {
        if white_space(q[k]) {
            assert(is_white_space(q@[k as int]));
            return false;
        }
        k = k + 1;
    }
    if q.len() > s.len() {
        assert forall|j: int| !starts_word_at(s@, q@, j) by {}
        return false;
    }
    let last = s.len() - q.len();
    let mut i: usize = 0;
    loop
        invariant
            q.len() <= s.len(),
            last == s.len() - q.len(),
            i <= last,
            no_white_space(q@),
            forall|j: int| 0 <= j < i ==> !starts_word_at(s@, q@, j),
        decreases last - i,
    {
        if (i == 0 || white_space(s[i - 1])) && occurs_at_exec(s, q, i) {
            assert(starts_word_at(s@, q@, i as int));
            return true;
        }
        if i == last {
            assert forall|j: int| !starts_word_at(s@, q@, j) by {
                if 0 <= j <= i {
                }
            }
            return false;
        }
        i = i + 1;
    }
}

/// How well `query` matches `app`; lower is better, `None` is no match: an empty query
/// matches with 0; otherwise 0 when the name starts with the query, 1 when a word of
/// the name does, 2 when the name contains it, 3 when the subtitle does (all compared
/// in lowercase).
pub open spec fn spec_score(app: LauncherApp, query: Seq<char>) -> Option<u8> {
    let name = app.name_lower@;
    if query.len() == 0 {
        Some(0)
    } else if seq_starts_with(name, query) {
        Some(0)
    } else if some_word_starts_with(name, query) {
        Some(1)
    } else if seq_contains(name, query) {
        Some(2)
    } else if seq_contains(app.subtitle_lower@, query) {
        Some(3)
    } else {
        None
    }
}

/// How well the lowercase `query` matches `app` (see `spec_score`).
pub fn score(app: &LauncherApp, query: &str) -> (r: Option<u8>)
    ensures
        r == spec_score(*app, query@),
{
    let q = chars_of(query);
    if q.len() == 0 {
        return Some(0);
    }
    let name = chars_of(app.name_lower.as_str());
    if starts_with(&name, &q) {
        Some(0)
    } else if word_starts_with(&name, &q) {
        Some(1)
    } else if contains(&name, &q) {
        Some(2)
    } else if contains(&chars_of(app.subtitle_lower.as_str()), &q) {
        Some(3)
    } else {
        None
    }
}

/// A query that starts `s`, or that starts a word of `s`, occurs in `s`.
proof fn lemma_prefix_occurs(s: Seq<char>, q: Seq<char>)
    ensures
        seq_starts_with(s, q) ==> seq_contains(s, q),
        some_word_starts_with(s, q) ==> seq_contains(s, q),
{
    if seq_starts_with(s, q) {
        assert(occurs_at(s, q, 0));
    }
    if some_word_starts_with(s, q) {
        let i = choose|i: int| starts_word_at(s, q, i);
        assert(occurs_at(s, q, i));
    }
}

/// The levels of a match: an empty query, or a lowercase name that starts with the
/// query, scores 0; a word of the name that starts with it (the name itself does not)
/// scores 1; a name that contains it only elsewhere scores 2; a subtitle that contains
/// it anywhere, when the name does not, scores 3; and an app matches exactly when the
/// query is empty or its name or its subtitle contains it.
pub proof fn lemma_score_levels(app: LauncherApp, q: Seq<char>)
    ensures
        q.len() == 0 ==> spec_score(app, q) == Some(0u8),
        seq_starts_with(app.name_lower@, q) ==> spec_score(app, q) == Some(0u8),
        q.len() > 0 && !seq_starts_with(app.name_lower@, q) && some_word_starts_with(app.name_lower@, q)
            ==> spec_score(app, q) == Some(1u8),
        q.len() > 0 && !seq_starts_with(app.name_lower@, q) && !some_word_starts_with(app.name_lower@, q)
            && seq_contains(app.name_lower@, q) ==> spec_score(app, q) == Some(2u8),
        q.len() > 0 && !seq_contains(app.name_lower@, q) && seq_contains(app.subtitle_lower@, q)
            ==> spec_score(app, q) == Some(3u8),
        spec_score(app, q) is None <==> (q.len() > 0 && !seq_contains(app.name_lower@, q)
            && !seq_contains(app.subtitle_lower@, q)),
        spec_score(app, q) matches Some(n) ==> n <= 3,
{
    lemma_prefix_occurs(app.name_lower@, q);
}

/// A result of a search: the score and the position of the app in the list searched.
pub type RankedMatch = (u8, usize);

/// Match `a` ranks strictly before match `b`: a better score, or the same score and a
/// lowercase name that comes first.
pub open spec fn match_lt(apps: Seq<LauncherApp>, a: RankedMatch, b: RankedMatch) -> bool {
    ||| a.0 < b.0
    ||| a.0 == b.0 && chars_lt(apps[a.1 as int].name_lower@, apps[b.1 as int].name_lower@)
}

/// Inserts `e` into ranked matches after every match that does not rank after it, as a
/// stable sort by score and lowercase name places them.
pub open spec fn insert_match(apps: Seq<LauncherApp>, s: Seq<RankedMatch>, e: RankedMatch) -> Seq<
    RankedMatch,
>
    decreases s.len(),
{
    if s.len() == 0 {
        seq![e]
    } else if match_lt(apps, e, s.last()) {
        insert_match(apps, s.drop_last(), e).push(s.last())
    } else {
        s.push(e)
    }
}

/// The matches of `query` among the first `n` apps, stably sorted by score and then by
/// lowercase name.
pub open spec fn ranked_matches(apps: Seq<LauncherApp>, query: Seq<char>, n: int) -> Seq<RankedMatch>
    decreases n,
{
    if n <= 0 {
        Seq::empty()
    } else {
        let rest = ranked_matches(apps, query, n - 1);
        match spec_score(apps[n - 1], query) {
            Some(s) => insert_match(apps, rest, (s, (n - 1) as usize)),
            None => rest,
        }
    }
}

/// The search results: the first `max_results` of the ranked matches of all apps.
pub open spec fn spec_results(apps: Seq<LauncherApp>, query: Seq<char>, max_results: int) -> Seq<
    RankedMatch,
> {
    let all = ranked_matches(apps, query, apps.len() as int);
    if max_results < all.len() {
        all.take(max_results)
    } else {
        all
    }
}

/// No match ranks strictly before one listed earlier.
pub open spec fn matches_sorted(apps: Seq<LauncherApp>, s: Seq<RankedMatch>) -> bool {
    forall|i: int, j: int|
        #![trigger s[i], s[j]]
        0 <= i < j < s.len() ==> !match_lt(apps, s[j], s[i])
}

/// The ranking order is a strict weak order.
proof fn lemma_match_lt_order(apps: Seq<LauncherApp>, a: RankedMatch, b: RankedMatch, c: RankedMatch)
    ensures
        !(match_lt(apps, a, b) && match_lt(apps, b, a)),
        !match_lt(apps, a, b) && !match_lt(apps, b, c) ==> !match_lt(apps, a, c),
{
    lemma_chars_lt_order(
        apps[a.1 as int].name_lower@,
        apps[b.1 as int].name_lower@,
        apps[c.1 as int].name_lower@,
    );
}

/// `insert_match` puts `e` at `p` when every later match ranks after it and the one
/// before does not.
proof fn lemma_insert_match_at(apps: Seq<LauncherApp>, s: Seq<RankedMatch>, e: RankedMatch, p: int)
    requires
        0 <= p <= s.len(),
        forall|j: int| p <= j < s.len() ==> match_lt(apps, e, #[trigger] s[j]),
        p == 0 || !match_lt(apps, e, s[p - 1]),
    ensures
        insert_match(apps, s, e) == s.take(p).push(e) + s.skip(p),
    decreases s.len(),
{
    if s.len() == 0 {
        assert(s.take(p).push(e) + s.skip(p) =~= seq![e]);
    } else if p == s.len() {
        assert(s.take(p).push(e) + s.skip(p) =~= s.push(e));
    } else {
        let t = s.drop_last();
        assert(p == 0 || t[p - 1] == s[p - 1]);
        assert forall|j: int| p <= j < t.len() implies match_lt(apps, e, #[trigger] t[j]) by {
            assert(t[j] == s[j]);
        }
        lemma_insert_match_at(apps, t, e, p);
        assert(s[s.len() - 1] == s.last());
        assert((t.take(p).push(e) + t.skip(p)).push(s.last()) =~= s.take(p).push(e) + s.skip(p));
    }
}

/// Inserting keeps every match and adds `e`.
proof fn lemma_insert_match_multiset(apps: Seq<LauncherApp>, s: Seq<RankedMatch>, e: RankedMatch)
    ensures
        insert_match(apps, s, e).to_multiset() == s.to_multiset().insert(e),
    decreases s.len(),
{
    broadcast use vstd::seq_lib::group_to_multiset_ensures, vstd::multiset::group_multiset_axioms;

    if s.len() > 0 && match_lt(apps, e, s.last()) {
        let t = s.drop_last();
        lemma_insert_match_multiset(apps, t, e);
        assert(t.push(s.last()) =~= s);
        assert(insert_match(apps, s, e).to_multiset() =~= s.to_multiset().insert(e));
    }
}

/// Inserting keeps the matches ranked.
proof fn lemma_insert_match_sorted(apps: Seq<LauncherApp>, s: Seq<RankedMatch>, e: RankedMatch)
    requires
        matches_sorted(apps, s),
    ensures
        matches_sorted(apps, insert_match(apps, s, e)),
    decreases s.len(),
{
    broadcast use vstd::seq_lib::group_to_multiset_ensures, vstd::multiset::group_multiset_axioms;

    if s.len() == 0 {
    } else if match_lt(apps, e, s.last()) {
        let t = s.drop_last();
        let l = s.last();
        assert(matches_sorted(apps, t)) by {
            assert forall|i: int, j: int| 0 <= i < j < t.len() implies !match_lt(
                apps,
                #[trigger] t[j],
                #[trigger] t[i],
            ) by {
                assert(t[i] == s[i] && t[j] == s[j]);
            }
        }
        lemma_insert_match_sorted(apps, t, e);
        lemma_insert_match_multiset(apps, t, e);
        let r = insert_match(apps, t, e);
        assert(s[s.len() - 1] == l);
        assert forall|i: int, j: int| 0 <= i < j < r.push(l).len() implies !match_lt(
            apps,
            #[trigger] r.push(l)[j],
            #[trigger] r.push(l)[i],
        ) by {
            if j == r.len() {
                let x = r[i];
                assert(r.to_multiset().count(x) > 0);
                if x == e {
                    lemma_match_lt_order(apps, e, l, l);
                } else {
                    assert(t.to_multiset().count(x) > 0);
                    assert(t.contains(x));
                    let k = choose|k: int| 0 <= k < t.len() && t[k] == x;
                    assert(s[k] == x);
                }
            } else {
                assert(r.push(l)[i] == r[i] && r.push(l)[j] == r[j]);
            }
        }
    } else {
        let l = s.last();
        assert(s[s.len() - 1] == l);
        assert forall|i: int, j: int| 0 <= i < j < s.push(e).len() implies !match_lt(
            apps,
            #[trigger] s.push(e)[j],
            #[trigger] s.push(e)[i],
        ) by {
            if j == s.len() {
                if i < s.len() - 1 {
                    assert(!match_lt(apps, s[s.len() - 1], s[i]));
                    lemma_match_lt_order(apps, e, l, s[i]);
                }
            } else {
                assert(s.push(e)[i] == s[i] && s.push(e)[j] == s[j]);
            }
        }
    }
}

/// The ranked matches among the first `n` apps are exactly the apps that match, each
/// once with its score, and they are ranked: no match ranks strictly before one listed
/// earlier.
pub proof fn lemma_ranked_matches(apps: Seq<LauncherApp>, query: Seq<char>, n: int)
    requires
        0 <= n <= apps.len(),
        apps.len() <= usize::MAX,
    ensures
        matches_sorted(apps, ranked_matches(apps, query, n)),
        ranked_matches(apps, query, n).no_duplicates(),
        forall|m: RankedMatch| #[trigger] ranked_matches(apps, query, n).contains(m) <==> (m.1 < n
            && spec_score(apps[m.1 as int], query) == Some(m.0)),
    decreases n,
{
    broadcast use vstd::seq_lib::group_to_multiset_ensures, vstd::multiset::group_multiset_axioms;

    let r = ranked_matches(apps, query, n);
    if n > 0 {
        let rest = ranked_matches(apps, query, n - 1);
        lemma_ranked_matches(apps, query, n - 1);
        match spec_score(apps[n - 1], query) {
            Some(s) => {
                let e = (s, (n - 1) as usize);
                lemma_insert_match_sorted(apps, rest, e);
                lemma_insert_match_multiset(apps, rest, e);
                assert(!rest.contains(e));
                rest.lemma_multiset_has_no_duplicates();
                assert forall|x: RankedMatch| r.to_multiset().contains(x) implies r.to_multiset().count(x) == 1 by {
                    if x != e {
                        assert(rest.to_multiset().count(x) > 0);
                    }
                }
                r.lemma_multiset_has_no_duplicates_conv();
                assert forall|m: RankedMatch| #[trigger] r.contains(m) <==> (m.1 < n && spec_score(
                    apps[m.1 as int],
                    query,
                ) == Some(m.0)) by {
                    if r.contains(m) {
                        assert(r.to_multiset().count(m) > 0);
                    }
                    if m.1 < n && spec_score(apps[m.1 as int], query) == Some(m.0) && m != e {
                        assert(rest.contains(m));
                        assert(rest.to_multiset().count(m) > 0);
                    }
                    if m == e {
                        assert(r.to_multiset().count(m) > 0);
                    }
                }
            },
            None => {
                assert forall|m: RankedMatch| #[trigger] r.contains(m) <==> (m.1 < n && spec_score(
                    apps[m.1 as int],
                    query,
                ) == Some(m.0)) by {
                    if m.1 == n - 1 {
                        assert(!rest.contains(m));
                    }
                }
            },
        }
    }
}

/// Whether match `a` ranks strictly before match `b`.
fn match_before(apps: &Vec<LauncherApp>, a: RankedMatch, b: RankedMatch) -> (r: bool)
    requires
        a.1 < apps.len(),
        b.1 < apps.len(),
    ensures
        r == match_lt(apps@, a, b),
{
    a.0 < b.0 || (a.0 == b.0 && str_lt(
        apps[a.1].name_lower.as_str(),
        apps[b.1].name_lower.as_str(),
    ))
}

/// Inserts `e` among ranked matches, as `insert_match` does.
fn insert_match_in_order(apps: &Vec<LauncherApp>, v: &mut Vec<RankedMatch>, e: RankedMatch)
    requires
        e.1 < apps.len(),
        forall|j: int| 0 <= j < old(v).len() ==> (#[trigger] old(v)@[j]).1 < apps.len(),
    ensures
        final(v)@ == insert_match(apps@, old(v)@, e),
{
    let mut p = v.len();
    loop
        invariant
            p <= v.len(),
            v@ == old(v)@,
            e.1 < apps.len(),
            forall|j: int| 0 <= j < v.len() ==> (#[trigger] v@[j]).1 < apps.len(),
            forall|j: int| p <= j < v.len() ==> match_lt(apps@, e, #[trigger] v@[j]),
        ensures
            p <= v.len(),
            v@ == old(v)@,
            forall|j: int| p <= j < v.len() ==> match_lt(apps@, e, #[trigger] v@[j]),
            p == 0 || !match_lt(apps@, e, v@[p - 1]),
        decreases p,
    {
        if p == 0 {
            break;
        }
        if !match_before(apps, e, v[p - 1]) {
            break;
        }
        p = p - 1;
    }
    proof { lemma_insert_match_at(apps@, v@, e, p as int); }
    v.insert(p, e);
    assert(v@ =~= old(v)@.take(p as int).push(e) + old(v)@.skip(p as int));
}

/// The results for the lowercase `query`: the matching apps with their scores, best
/// first (by score, then lowercase name, keeping list order among equals), at most
/// `max_results` of them.
pub fn rank_matches(apps: &Vec<LauncherApp>, query: &str, max_results: usize) -> (r: Vec<RankedMatch>)
    ensures
        r@ == spec_results(apps@, query@, max_results as int),
{
    let mut ranked: Vec<RankedMatch> = Vec::new();
    let mut n: usize = 0;
    while n < apps.len()
        invariant
            n <= apps.len(),
            ranked@ == ranked_matches(apps@, query@, n as int),
            forall|j: int| 0 <= j < ranked.len() ==> (#[trigger] ranked@[j]).1 < n,
        decreases apps.len() - n,
    {
        let ghost before = ranked@;
        match score(&apps[n], query) {
            Some(s) => {
                insert_match_in_order(apps, &mut ranked, (s, n));
                proof {
                    lemma_insert_match_multiset(apps@, before, (s, n));
                    assert forall|j: int| 0 <= j < ranked.len() implies (#[trigger] ranked@[j]).1 < n + 1 by {
                        broadcast use vstd::seq_lib::group_to_multiset_ensures, vstd::multiset::group_multiset_axioms;
                        let x = ranked@[j];
                        assert(ranked@.to_multiset().count(x) > 0);
                        if x != (s, n) {
                            assert(before.to_multiset().count(x) > 0);
                            assert(before.contains(x));
                        }
                    }
                }
            },
            None => {},
        }
        n = n + 1;
    }
    if max_results < ranked.len() {
        ranked.truncate(max_results);
        assert(ranked@ =~= ranked_matches(apps@, query@, apps.len() as int).take(max_results as int));
    }
    ranked
}

/// The results for what was typed in the search entry: the text is lowercased, then
/// ranked (see `rank_matches`).
pub fn search(apps: &Vec<LauncherApp>, text: &str, max_results: usize) -> (r: Vec<RankedMatch>)
    ensures
        r@ == spec_results(apps@, lowercase(text@), max_results as int),
{
    let query = to_lowercase(text);
    rank_matches(apps, query.as_str(), max_results)
}

/// The app that Enter launches: the first result, if any.
pub fn top_match(results: &Vec<RankedMatch>) -> (r: Option<usize>)
    ensures
        r == (if results.len() > 0 { Some(results@[0].1) } else { None }),
{
    if results.len() > 0 {
        Some(results[0].1)
    } else {
        None
    }
}

/// With an empty query every app matches with score 0; when the apps are sorted by
/// lowercase name (as `sort_apps` lists them) the results are the whole list, in its
/// order.
pub proof fn lemma_empty_query_lists_all(apps: Seq<LauncherApp>, n: int)
    requires
        0 <= n <= apps.len(),
        apps.len() <= usize::MAX,
        names_sorted(apps),
    ensures
        ranked_matches(apps, Seq::empty(), n) == Seq::new(n as nat, |i: int| (0u8, i as usize)),
    decreases n,
{
    if n > 0 {
        lemma_empty_query_lists_all(apps, n - 1);
        let rest = ranked_matches(apps, Seq::empty(), n - 1);
        let e = (0u8, (n - 1) as usize);
        if n > 1 {
            assert(rest.last() == (0u8, (n - 2) as usize));
            assert(!chars_lt(apps[n - 1].name_lower@, apps[n - 2].name_lower@));
        }
        assert(insert_match(apps, rest, e) == rest.push(e));
        assert(rest.push(e) =~= Seq::new(n as nat, |i: int| (0u8, i as usize)));
    }
}

/// The top match ranks first: no result ranks strictly before it.
pub proof fn lemma_top_match_is_best(apps: Seq<LauncherApp>, query: Seq<char>, max_results: int)
    requires
        apps.len() <= usize::MAX,
        0 <= max_results,
        spec_results(apps, query, max_results).len() > 0,
    ensures
        forall|m: RankedMatch| #[trigger] ranked_matches(apps, query, apps.len() as int).contains(m)
            ==> !match_lt(apps, m, spec_results(apps, query, max_results)[0]),
{
    let all = ranked_matches(apps, query, apps.len() as int);
    lemma_ranked_matches(apps, query, apps.len() as int);
    if max_results < all.len() {
        assert(all.take(max_results).len() > 0);
        assert(all.take(max_results)[0] == all[0]);
    }
    assert(spec_results(apps, query, max_results)[0] == all[0]);
    assert forall|m: RankedMatch| #[trigger] all.contains(m) implies !match_lt(apps, m, all[0]) by {
        let j = choose|j: int| 0 <= j < all.len() && all[j] == m;
        if j > 0 {
            assert(!match_lt(apps, all[j], all[0]));
        } else {
            lemma_match_lt_order(apps, m, m, m);
        }
    }
}

/// At most `max_results` results are listed, and they are the best-ranked matches: the
/// results are the start of the ranked matches.
pub proof fn lemma_results_bounded(apps: Seq<LauncherApp>, query: Seq<char>, max_results: int)
    requires
        0 <= max_results,
    ensures
        spec_results(apps, query, max_results).len() <= max_results,
        spec_results(apps, query, max_results) == ranked_matches(apps, query, apps.len() as int).take(
            spec_results(apps, query, max_results).len() as int,
        ),
{
    let all = ranked_matches(apps, query, apps.len() as int);
    if max_results < all.len() {
        assert(all.take(max_results).len() == max_results);
    } else {
        assert(all.take(all.len() as int) =~= all);
    }
}

} // verus!
