//! Laws of the allow-list.

use vstd::prelude::*;

use crate::laws;
use crate::policy::allowlist;
use crate::policy::allowlist::AllowDecision;
use crate::policy::{PluginsPolicy, Policy};
use crate::text;

verus! {

// ---------------------------------------------------------------------------
// The decision

/// Where the rules are on, a pattern that matches allows the URL, wherever it stands in
/// the list and whatever the other patterns are.
pub proof fn law_any_pattern_allows(
    policy: Policy,
    rules: PluginsPolicy,
    url: Seq<char>,
    decision: AllowDecision,
    i: int,
)
    requires
        policy.policies.plugins == Some(rules),
        rules.enabled,
        allowlist::decides(policy, url, decision),
        0 <= i < rules.allowed_hosts@.len(),
        allowlist::pattern_matches(rules.allowed_hosts@[i]@, allowlist::normalized(url)),
    ensures
        decision is Allowed,
{
}

/// What is allowed matches a pattern of the list, and the rules are on.
pub proof fn law_what_is_allowed_matches(
    policy: Policy,
    url: Seq<char>,
    decision: AllowDecision,
) -> (i: int)
    requires
        allowlist::decides(policy, url, decision),
        decision is Allowed,
    ensures
        policy.policies.plugins matches Some(rules) && rules.enabled && 0 <= i
            < rules.allowed_hosts@.len() && allowlist::pattern_matches(
            rules.allowed_hosts@[i]@,
            allowlist::normalized(url),
        ),
{
    let hosts = policy.policies.plugins->0.allowed_hosts@;
    choose|i: int|
        0 <= i < hosts.len() && allowlist::pattern_matches(
            (#[trigger] hosts[i])@,
            allowlist::normalized(url),
        )
}

/// Where the rules are on and no pattern matches, the URL is refused, and told how
/// many patterns there are, or that there are none.
pub proof fn law_what_matches_nothing_is_refused(
    policy: Policy,
    rules: PluginsPolicy,
    url: Seq<char>,
    decision: AllowDecision,
)
    requires
        policy.policies.plugins == Some(rules),
        rules.enabled,
        allowlist::decides(policy, url, decision),
        forall|i: int|
            0 <= i < rules.allowed_hosts@.len() ==> !allowlist::pattern_matches(
                (#[trigger] rules.allowed_hosts@[i])@,
                allowlist::normalized(url),
            ),
    ensures
        decision is Denied,
        rules.allowed_hosts@.len() == 0 ==> decision->reason@ == url
            + ": org policy has plugins.enabled but no allowed_hosts configured (deny-all)"@,
        rules.allowed_hosts@.len() > 0 ==> decision->reason@ == url
            + ": host doesn't match any of "@ + text::decimal(rules.allowed_hosts@.len())
            + " allowed pattern(s) — see your org's thClaws policy"@,
{
}

/// Without plugin rules, or with rules that are off, nothing is decided, whatever the
/// list holds.
pub proof fn law_rules_that_are_off_decide_nothing(
    policy: Policy,
    url: Seq<char>,
    decision: AllowDecision,
)
    requires
        policy.policies.plugins matches Some(rules) ==> !rules.enabled,
        allowlist::decides(policy, url, decision),
    ensures
        decision is NoPolicy,
{
}

/// A list allows all that a list with fewer of its patterns allows, in whatever order
/// they stand.
pub proof fn law_more_patterns_allow_more(
    policy: Policy,
    other: Policy,
    rules: PluginsPolicy,
    more: PluginsPolicy,
    url: Seq<char>,
    decision: AllowDecision,
    under_more: AllowDecision,
)
    requires
        policy.policies.plugins == Some(rules),
        other.policies.plugins == Some(more),
        more.enabled,
        allowlist::decides(policy, url, decision),
        allowlist::decides(other, url, under_more),
        forall|i: int|
            0 <= i < rules.allowed_hosts@.len() ==> exists|j: int|
                0 <= j < more.allowed_hosts@.len() && (#[trigger] more.allowed_hosts@[j])@ == (
                #[trigger] rules.allowed_hosts@[i])@,
        decision is Allowed,
    ensures
        under_more is Allowed,
{
    let i = law_what_is_allowed_matches(policy, url, decision);
    assert(rules.allowed_hosts@[i]@ == rules.allowed_hosts@[i]@);
    let j = choose|j: int|
        0 <= j < more.allowed_hosts@.len() && (#[trigger] more.allowed_hosts@[j])@
            == rules.allowed_hosts@[i]@;
    law_any_pattern_allows(other, more, url, under_more, j);
}

/// URLs with the same normal form are decided alike, but for how they are named in a
/// refusal.
pub proof fn law_the_normal_form_decides(
    policy: Policy,
    url: Seq<char>,
    same: Seq<char>,
    decision: AllowDecision,
    of_same: AllowDecision,
)
    requires
        allowlist::normalized(url) == allowlist::normalized(same),
        allowlist::decides(policy, url, decision),
        allowlist::decides(policy, same, of_same),
    ensures
        decision is NoPolicy == of_same is NoPolicy,
        decision is Allowed == of_same is Allowed,
        decision is Denied == of_same is Denied,
{
}

// ---------------------------------------------------------------------------
// Stars

/// Texts with a run of characters between each and the next.
pub open spec fn woven(chunks: Seq<Seq<char>>, runs: Seq<Seq<char>>) -> Seq<char>
    decreases chunks.len(),
{
    if chunks.len() == 0 {
        Seq::empty()
    } else if chunks.len() == 1 {
        chunks[0]
    } else {
        chunks[0] + runs[0] + woven(chunks.skip(1), runs.skip(1))
    }
}

/// What stands before the first star is literal.
proof fn lemma_literal_start(c: Seq<char>, p: Seq<char>, t: Seq<char>)
    requires
        !c.contains('*'),
    ensures
        allowlist::wildcard(c + p, t) <==> t.len() >= c.len() && t.take(c.len() as int) == c
            && allowlist::wildcard(p, t.skip(c.len() as int)),
    decreases c.len(),
{
    let all = c + p;
    if c.len() == 0 {
        assert(all =~= p);
        assert(t.take(0) =~= c);
        assert(t.skip(0) =~= t);
    } else {
        let d = c.skip(1);
        let n = c.len() as int;
        assert(all[0] == c[0]);
        assert(c.contains(c[0]));
        assert(all.skip(1) =~= d + p);
        assert(!d.contains('*')) by {
            if d.contains('*') {
                let i = choose|i: int| 0 <= i < d.len() && d[i] == '*';
                assert(c[i + 1] == '*');
            }
        }
        if t.len() > 0 {
            let u = t.skip(1);
            lemma_literal_start(d, p, u);
            if t.len() >= n {
                assert(u.skip(n - 1) =~= t.skip(n));
                if t.take(n) == c {
                    assert(t.take(n)[0] == t[0]);
                    assert(u.take(n - 1) =~= d) by {
                        assert forall|i: int| 0 <= i < n - 1 implies u.take(n - 1)[i] == d[i] by {
                            assert(t.take(n)[i + 1] == c[i + 1]);
                        }
                    }
                }
                if t[0] == c[0] && u.take(n - 1) == d {
                    assert(t.take(n) =~= c) by {
                        assert forall|i: int| 0 <= i < n implies t.take(n)[i] == c[i] by {
                            if i > 0 {
                                assert(u.take(n - 1)[i - 1] == d[i - 1]);
                            }
                        }
                    }
                }
            }
        }
    }
}

/// Chunks without stars, with stars between them, hold a star where there are two.
proof fn lemma_star_between(chunks: Seq<Seq<char>>)
    requires
        chunks.len() > 1,
    ensures
        laws::text::joined_with(chunks, '*').contains('*'),
{
    let p = laws::text::joined_with(chunks, '*');
    assert(p[chunks[0].len() as int] == '*');
}

/// A star stands for any run of characters, an empty one too: a segment made of the
/// literal parts of a pattern with any runs for its stars matches.
pub proof fn law_stars_stand_for_any_run(chunks: Seq<Seq<char>>, runs: Seq<Seq<char>>)
    requires
        chunks.len() > 0,
        runs.len() == chunks.len() - 1,
        forall|i: int| 0 <= i < chunks.len() ==> !(#[trigger] chunks[i]).contains('*'),
    ensures
        allowlist::segment_matches(
            laws::text::joined_with(chunks, '*'),
            woven(chunks, runs),
        ),
{
    lemma_any_run(chunks, runs);
    if chunks.len() > 1 {
        lemma_star_between(chunks);
    } else {
        assert(!chunks[0].contains('*'));
    }
}

proof fn lemma_any_run(chunks: Seq<Seq<char>>, runs: Seq<Seq<char>>)
    requires
        chunks.len() > 0,
        runs.len() == chunks.len() - 1,
        forall|i: int| 0 <= i < chunks.len() ==> !(#[trigger] chunks[i]).contains('*'),
    ensures
        allowlist::wildcard(laws::text::joined_with(chunks, '*'), woven(chunks, runs)),
    decreases chunks.len(),
{
    let c = chunks[0];
    let t = woven(chunks, runs);
    let none = Seq::<char>::empty();
    assert(!c.contains('*'));
    if chunks.len() == 1 {
        lemma_literal_start(c, none, t);
        assert(c + none =~= c);
        assert(t.take(c.len() as int) =~= c);
    } else {
        let rest = chunks.skip(1);
        assert forall|i: int| 0 <= i < rest.len() implies !(#[trigger] rest[i]).contains('*') by {
            assert(rest[i] == chunks[i + 1]);
        }
        lemma_any_run(rest, runs.skip(1));
        let tail = laws::text::joined_with(rest, '*');
        let p = seq!['*'] + tail;
        let u = runs[0] + woven(rest, runs.skip(1));
        lemma_literal_start(c, p, t);
        assert(laws::text::joined_with(chunks, '*') =~= c + p);
        assert(t.take(c.len() as int) =~= c);
        assert(t.skip(c.len() as int) =~= u);
        let k = runs[0].len() as int;
        assert(u.skip(k) =~= woven(rest, runs.skip(1)));
        assert(p.skip(1) =~= tail);
        assert(allowlist::wildcard(p.skip(1), u.skip(k)));
    }
}

/// A segment that matches a pattern is made of the literal parts of the pattern, in
/// their order, with some run of characters for each star, and of nothing else.
pub proof fn law_what_matches_stars(chunks: Seq<Seq<char>>, segment: Seq<char>) -> (runs: Seq<
    Seq<char>,
>)
    requires
        chunks.len() > 0,
        forall|i: int| 0 <= i < chunks.len() ==> !(#[trigger] chunks[i]).contains('*'),
        allowlist::segment_matches(laws::text::joined_with(chunks, '*'), segment),
    ensures
        runs.len() == chunks.len() - 1,
        segment == woven(chunks, runs),
{
    if chunks.len() > 1 {
        lemma_star_between(chunks);
        lemma_runs(chunks, segment)
    } else {
        assert(!chunks[0].contains('*'));
        Seq::empty()
    }
}

proof fn lemma_runs(chunks: Seq<Seq<char>>, segment: Seq<char>) -> (runs: Seq<Seq<char>>)
    requires
        chunks.len() > 0,
        forall|i: int| 0 <= i < chunks.len() ==> !(#[trigger] chunks[i]).contains('*'),
        allowlist::wildcard(laws::text::joined_with(chunks, '*'), segment),
    ensures
        runs.len() == chunks.len() - 1,
        segment == woven(chunks, runs),
    decreases chunks.len(),
{
    let c = chunks[0];
    let n = c.len() as int;
    let none = Seq::<char>::empty();
    assert(!c.contains('*'));
    if chunks.len() == 1 {
        lemma_literal_start(c, none, segment);
        assert(c + none =~= c);
        assert(segment =~= segment.take(n) + segment.skip(n));
        assert(segment =~= c);
        Seq::empty()
    } else {
        let rest = chunks.skip(1);
        assert forall|i: int| 0 <= i < rest.len() implies !(#[trigger] rest[i]).contains('*') by {
            assert(rest[i] == chunks[i + 1]);
        }
        let tail = laws::text::joined_with(rest, '*');
        let p = seq!['*'] + tail;
        lemma_literal_start(c, p, segment);
        assert(laws::text::joined_with(chunks, '*') =~= c + p);
        let u = segment.skip(n);
        assert(p[0] == '*');
        assert(p.skip(1) =~= tail);
        let k = choose|k: int|
            0 <= k <= u.len() && allowlist::wildcard(p.skip(1), #[trigger] u.skip(k));
        assert(0 <= k <= u.len() && allowlist::wildcard(tail, u.skip(k)));
        let later = lemma_runs(rest, u.skip(k));
        let runs = seq![u.take(k)] + later;
        assert(runs.skip(1) =~= later);
        assert(segment =~= segment.take(n) + u.take(k) + u.skip(k));
        runs
    }
}

/// A segment without a star asks for itself.
pub proof fn law_a_segment_without_stars_is_literal(pattern: Seq<char>, segment: Seq<char>)
    requires
        !pattern.contains('*'),
    ensures
        allowlist::segment_matches(pattern, segment) <==> segment == pattern,
{
}

// ---------------------------------------------------------------------------
// Hosts and patterns

/// A leading `*.` asks for the domain or for a subdomain of it; without it, a pattern
/// that is a host alone asks for that host, and another for a host that its first
/// segment matches.
pub proof fn law_what_a_host_pattern_asks(
    domain: Seq<char>,
    pattern: Seq<char>,
    host: Seq<char>,
    alone: bool,
)
    requires
        pattern.len() < 2 || pattern[0] != '*' || pattern[1] != '.',
    ensures
        allowlist::host_matches("*."@ + domain, host, alone) <==> host == domain || host.len()
            > domain.len() && host.skip(host.len() - domain.len() - 1) == seq!['.'] + domain,
        allowlist::host_matches(pattern, host, true) <==> host == pattern,
        allowlist::host_matches(pattern, host, false) <==> allowlist::segment_matches(
            pattern,
            host,
        ),
{
    reveal_strlit("*.");
    let dotted = "*."@ + domain;
    let tail = seq!['.'] + domain;
    assert(dotted.subrange(0, 2) =~= "*."@);
    assert(dotted.skip(2) =~= domain);
    let k = host.len() - domain.len() - 1;
    if k >= 0 {
        assert(host.subrange(k, k + tail.len()) =~= host.skip(k));
    }
    if text::occurs_at(pattern, "*."@, 0) {
        let start = pattern.subrange(0, 2);
        assert(start[0] == pattern[0] && start[1] == pattern[1]);
    }
}

/// A pattern matches the normal form of a URL exactly where it has no more segments,
/// its first one matches the host, in small letters, and each further one matches the
/// segment at its place, as it is written or in small letters.
pub proof fn law_patterns_match_segment_by_segment(
    wanted: Seq<Seq<char>>,
    segments: Seq<Seq<char>>,
)
    requires
        wanted.len() > 0,
        segments.len() > 0,
        forall|i: int| 0 <= i < wanted.len() ==> !(#[trigger] wanted[i]).contains('/'),
        forall|i: int| 0 <= i < segments.len() ==> !(#[trigger] segments[i]).contains('/'),
        ({
            let p = laws::text::joined_with(wanted, '/');
            &&& p.len() > 0
            &&& !text::is_white_space(p[0])
            &&& !text::is_white_space(p.last())
            &&& p.last() != '/'
        }),
        ({
            let n = laws::text::joined_with(segments, '/');
            n.len() > 0 ==> n.last() != '/'
        }),
    ensures
        allowlist::pattern_matches(
            laws::text::joined_with(wanted, '/'),
            laws::text::joined_with(segments, '/'),
        ) <==> wanted.len() <= segments.len() && allowlist::host_matches(
            text::lower(wanted[0]),
            segments[0],
            wanted.len() == 1,
        ) && (forall|i: int|
            1 <= i < wanted.len() ==> allowlist::segment_matches(#[trigger] wanted[i], segments[i])
                || allowlist::segment_matches(text::lower(wanted[i]), segments[i])),
{
    let p = laws::text::joined_with(wanted, '/');
    let n = laws::text::joined_with(segments, '/');
    laws::text::law_splitting_undoes_joining(wanted, '/');
    laws::text::law_splitting_undoes_joining(segments, '/');
    assert(allowlist::pattern_text(p) == p);
    assert(text::trim_end_char(n, '/') == n);
    if allowlist::pattern_matches(p, n) {
        assert forall|i: int| 1 <= i < wanted.len() implies allowlist::segment_matches(
            #[trigger] wanted[i],
            segments[i],
        ) || allowlist::segment_matches(text::lower(wanted[i]), segments[i]) by {
            assert(allowlist::path_segment_matches(wanted[i], segments[i]));
        }
    }
}

/// White space around a pattern and slashes at its end make no difference, and neither
/// do slashes at the end of a normal form.
pub proof fn law_the_ends_of_a_pattern_do_not_matter(
    before: Seq<char>,
    pattern: Seq<char>,
    after: Seq<char>,
    n: Seq<char>,
)
    requires
        pattern.len() > 0,
        !text::is_white_space(pattern[0]),
        !text::is_white_space(pattern.last()),
        forall|i: int| 0 <= i < before.len() ==> text::is_white_space(#[trigger] before[i]),
        forall|i: int| 0 <= i < after.len() ==> text::is_white_space(#[trigger] after[i]),
    ensures
        allowlist::pattern_matches(before + pattern + after, n) == allowlist::pattern_matches(
            pattern,
            n,
        ),
        allowlist::pattern_matches(pattern.push('/'), n) == allowlist::pattern_matches(pattern, n),
        allowlist::pattern_matches(pattern, n.push('/')) == allowlist::pattern_matches(pattern, n),
{
    let none = Seq::<char>::empty();
    let slashed = pattern.push('/');
    laws::text::law_white_space_around_does_not_matter(before, pattern, after);
    laws::text::law_white_space_around_does_not_matter(none, pattern, none);
    laws::text::law_white_space_around_does_not_matter(none, slashed, none);
    assert(none + pattern + none =~= pattern);
    assert(none + slashed + none =~= slashed);
    assert(slashed.drop_last() =~= pattern);
    assert(n.push('/').drop_last() =~= n);
}

/// A blank pattern asks for an empty host.
pub proof fn law_a_blank_pattern_asks_for_no_host(pattern: Seq<char>, n: Seq<char>)
    requires
        forall|i: int| 0 <= i < pattern.len() ==> text::is_white_space(#[trigger] pattern[i]),
    ensures
        allowlist::pattern_matches(pattern, n) <==> n.len() == 0 || n[0] == '/',
{
    reveal_strlit("*.");
    let none = Seq::<char>::empty();
    let slash = seq!['/'];
    assert(slash[0] == '/');
    laws::text::law_white_space_around_does_not_matter(pattern, none, none);
    assert(pattern + none + none =~= pattern);
    assert(allowlist::pattern_text(pattern) =~= none);
    text::lemma_split_one(none, '/');
    assert(text::lower(none) =~= none);
    let wanted = text::split(none, '/');
    let t = text::trim_end_char(n, '/');
    laws::text::law_trailing_characters_are_taken_off(n, '/');
    let j = choose|j: int|
        0 <= j <= n.len() && text::trim_end_char(n, '/') == #[trigger] n.take(j) && (forall|k: int|
            j <= k < n.len() ==> #[trigger] n[k] == '/') && (j > 0 ==> n[j - 1] != '/');
    text::lemma_split_parts(t, '/');
    text::lemma_stop_index(t, slash);
    let segments = text::split(t, '/');
    let k = text::stop_index(t, slash);
    if n.len() > 0 && j > 0 {
        assert(t[0] == n[0]);
    }
    if k < t.len() {
        assert(segments[0] == t.take(k));
    } else {
        assert(segments[0] == t);
    }
    if segments[0].len() == 0 {
        assert(segments[0] =~= none);
    }
}

// ---------------------------------------------------------------------------
// The normal form of a URL

/// A part that may be missing, with a mark behind it.
pub open spec fn marked(part: Option<Seq<char>>, mark: Seq<char>) -> Seq<char> {
    match part {
        Some(s) => s + mark,
        None => Seq::empty(),
    }
}

/// A part that may be missing, with a mark before it.
pub open spec fn led(mark: char, part: Option<Seq<char>>) -> Seq<char> {
    match part {
        Some(s) => seq![mark] + s,
        None => Seq::empty(),
    }
}

/// Host, port and path.
pub open spec fn place(host: Seq<char>, port: Option<Seq<char>>, path: Option<Seq<char>>) -> Seq<
    char,
> {
    host + led(':', port) + led('/', path)
}

/// A URL without query and fragment: scheme, user, host, port and path, and `.git`.
pub open spec fn address(
    scheme: Option<Seq<char>>,
    user: Option<Seq<char>>,
    host: Seq<char>,
    port: Option<Seq<char>>,
    path: Option<Seq<char>>,
    git: bool,
) -> Seq<char> {
    marked(scheme, "://"@) + (marked(user, "@"@) + (place(host, port, path) + if git {
        ".git"@
    } else {
        ""@
    }))
}

/// The host of a place is what stands before its port, and the path what follows its
/// first slash.
proof fn lemma_place(host: Seq<char>, port: Option<Seq<char>>, path: Option<Seq<char>>)
    requires
        !host.contains('/'),
        !host.contains(':'),
        port matches Some(p) ==> !p.contains('/'),
    ensures
        ({
            let body = place(host, port, path);
            &&& allowlist::body_host(body) == text::lower(host)
            &&& path is None ==> text::stop_index(body, seq!['/']) == body.len()
            &&& path matches Some(p) ==> text::stop_index(body, seq!['/']) == body.len() - 1
                - p.len() && allowlist::body_path(body) == p
        }),
{
    let named = host + led(':', port);
    let body = place(host, port, path);
    let n = named.len() as int;
    assert forall|j: int| 0 <= j < n implies !seq!['/'].contains(#[trigger] body[j]) by {
        if j < host.len() {
            assert(body[j] == host[j]);
            assert(host.contains(host[j]));
        } else if j > host.len() {
            let p = port->0;
            assert(body[j] == p[j - host.len() - 1]);
            assert(p.contains(p[j - host.len() - 1]));
        }
    }
    if n < body.len() {
        assert(body[n] == '/');
        assert(seq!['/'][0] == '/');
        assert(seq!['/'].contains('/'));
    }
    text::lemma_stop_index_is(body, seq!['/'], n);
    assert(text::before_any(body, seq!['/']) =~= named);
    let h = host.len() as int;
    assert forall|j: int| 0 <= j < h implies !seq![':'].contains(#[trigger] named[j]) by {
        assert(named[j] == host[j]);
        assert(host.contains(host[j]));
    }
    if h < named.len() {
        assert(named[h] == ':');
        assert(seq![':'][0] == ':');
        assert(seq![':'].contains(':'));
    }
    text::lemma_stop_index_is(named, seq![':'], h);
    assert(text::before_any(named, seq![':']) =~= host);
    if let Some(p) = path {
        assert(body.skip(n + 1) =~= p);
    }
}

/// A scheme is taken off where there is one.
proof fn lemma_scheme_off(scheme: Option<Seq<char>>, rest: Seq<char>, n: int)
    requires
        scheme matches Some(s) ==> !s.contains('/'),
        0 <= n <= rest.len(),
        forall|j: int| 0 <= j < n ==> (#[trigger] rest[j]) != '/',
        n < rest.len() ==> rest[n] == '/',
        scheme is None && 0 < n && n + 1 < rest.len() ==> rest[n + 1] != '/' || rest[n - 1] != ':',
    ensures
        allowlist::without_scheme(marked(scheme, "://"@) + rest) == rest,
{
    reveal_strlit("://");
    let s = marked(scheme, "://"@) + rest;
    let slash = seq!['/'];
    assert(slash[0] == '/');
    assert(slash.contains('/'));
    match scheme {
        Some(name) => {
            let k = name.len() as int;
            assert forall|j: int| 0 <= j < k + 1 implies !slash.contains(#[trigger] s[j]) by {
                if j < k {
                    assert(s[j] == name[j]);
                    assert(name.contains(name[j]));
                } else {
                    assert(s[j] == ':');
                }
            }
            assert(s[k + 1] == '/');
            text::lemma_stop_index_is(s, slash, k + 1);
            assert(s.subrange(k, k + 3) =~= "://"@);
            assert(s.skip(k + 3) =~= rest);
        },
        None => {
            assert(s =~= rest);
            text::lemma_stop_index_is(rest, slash, n);
            if text::occurs_at(rest, "://"@, n - 1) {
                let found = rest.subrange(n - 1, n + 2);
                assert(found[0] == rest[n - 1] && found[2] == rest[n + 1]);
            }
        },
    }
}

/// A user is taken off where there is one.
proof fn lemma_user_off(user: Option<Seq<char>>, rest: Seq<char>, n: int)
    requires
        user matches Some(u) ==> !u.contains('/') && !u.contains('@'),
        user is None ==> 0 <= n <= rest.len() && (forall|j: int|
            0 <= j < n ==> (#[trigger] rest[j]) != '/' && rest[j] != '@') && (n < rest.len()
            ==> rest[n] == '/'),
    ensures
        allowlist::without_user(marked(user, "@"@) + rest) == rest,
{
    reveal_strlit("@");
    let s = marked(user, "@"@) + rest;
    let stops = seq!['@', '/'];
    assert(stops[0] == '@' && stops[1] == '/');
    assert(stops.contains('@') && stops.contains('/'));
    match user {
        Some(u) => {
            let k = u.len() as int;
            assert forall|j: int| 0 <= j < k implies !stops.contains(#[trigger] s[j]) by {
                assert(s[j] == u[j]);
                assert(u.contains(u[j]));
            }
            assert(s[k] == '@');
            text::lemma_stop_index_is(s, stops, k);
            assert(s.skip(k + 1) =~= rest);
        },
        None => {
            assert(s =~= rest);
            text::lemma_stop_index_is(rest, stops, n);
        },
    }
}

/// Query, fragment and white space are cut off.
#[verifier::spinoff_prover]
#[verifier::rlimit(50)]
proof fn lemma_cut_off(
    before: Seq<char>,
    core: Seq<char>,
    mark: char,
    query: Option<Seq<char>>,
    after: Seq<char>,
)
    requires
        mark == '?' || mark == '#',
        forall|i: int| 0 <= i < before.len() ==> text::is_white_space(#[trigger] before[i]),
        forall|i: int| 0 <= i < after.len() ==> text::is_white_space(#[trigger] after[i]),
        core.len() > 0,
        !text::is_white_space(core[0]),
        query is None ==> !text::is_white_space(core.last()),
        !core.contains('?'),
        !core.contains('#'),
    ensures
        text::before_any(
            text::trimmed(before + core + led(mark, query) + after),
            seq!['?', '#'],
        ) == core,
{
    let stops = seq!['?', '#'];
    assert(stops[0] == '?' && stops[1] == '#');
    assert(stops.contains('?') && stops.contains('#'));
    let url = before + core + led(mark, query) + after;
    let none = Seq::<char>::empty();
    assert forall|j: int| 0 <= j < core.len() implies !stops.contains(#[trigger] core[j]) by {
        assert(core.contains(core[j]));
    }
    match query {
        None => {
            laws::text::law_white_space_around_does_not_matter(before, core, after);
            assert(url =~= before + core + after);
            text::lemma_stop_index_is(core, stops, core.len() as int);
            assert(core.take(core.len() as int) =~= core);
        },
        Some(q) => {
            let head = core.push(mark);
            let rest = q + after;
            assert(!text::is_white_space(head.last()));
            allowlist::lemma_trim_end_from(head, rest);
            lemma_trim_start_off(before, head + rest);
            assert(url =~= before + (head + rest));
            let t = head + text::trim_end(rest);
            assert forall|j: int| 0 <= j < core.len() implies !stops.contains(#[trigger] t[j]) by {
                assert(t[j] == core[j]);
            }
            assert(t[core.len() as int] == mark);
            text::lemma_stop_index_is(t, stops, core.len() as int);
            assert(t.take(core.len() as int) =~= core);
        },
    }
}

/// White space at the start is trimmed.
proof fn lemma_trim_start_off(before: Seq<char>, s: Seq<char>)
    requires
        forall|i: int| 0 <= i < before.len() ==> text::is_white_space(#[trigger] before[i]),
        s.len() > 0,
        !text::is_white_space(s[0]),
    ensures
        text::trim_start(before + s) == s,
    decreases before.len(),
{
    let all = before + s;
    if before.len() == 0 {
        assert(all =~= s);
    } else {
        let rest = before.skip(1);
        assert(all[0] == before[0]);
        assert(all.skip(1) =~= rest + s);
        assert forall|i: int| 0 <= i < rest.len() implies text::is_white_space(
            #[trigger] rest[i],
        ) by {
            assert(rest[i] == before[i + 1]);
        }
        lemma_trim_start_off(rest, s);
    }
}

/// Where the path starts, and no sooner, there is a slash.
#[verifier::spinoff_prover]
#[verifier::rlimit(50)]
proof fn lemma_before_path(
    bare: bool,
    host: Seq<char>,
    port: Option<Seq<char>>,
    path: Option<Seq<char>>,
    suffix: Seq<char>,
    m: int,
)
    requires
        !host.contains('/'),
        port matches Some(p) ==> !p.contains('/'),
        bare ==> !host.contains('@') && (port matches Some(p) ==> !p.contains('@')),
        !suffix.contains('/'),
        !suffix.contains('@'),
        m == if path is Some {
            (host + led(':', port)).len()
        } else {
            (place(host, port, path) + suffix).len()
        },
    ensures
        ({
            let located = place(host, port, path) + suffix;
            &&& m <= located.len()
            &&& forall|j: int| 0 <= j < m ==> (#[trigger] located[j]) != '/'
            &&& bare ==> forall|j: int| 0 <= j < m ==> (#[trigger] located[j]) != '@'
            &&& m < located.len() ==> located[m] == '/' && path is Some
            &&& m + 1 < located.len() && path->0.len() > 0 ==> located[m + 1] == path->0[0]
            &&& m + 1 < located.len() && path->0.len() == 0 ==> located[m + 1] != '/'
        }),
{
    let located = place(host, port, path) + suffix;
    let n = (host + led(':', port)).len() as int;
    assert forall|j: int| 0 <= j < m implies (#[trigger] located[j]) != '/' && (bare ==> located[j]
        != '@') by {
        if j < host.len() {
            assert(located[j] == host[j]);
            assert(host.contains(host[j]));
        } else if j >= n {
            assert(located[j] == suffix[j - n]);
            assert(suffix.contains(suffix[j - n]));
        } else if j > host.len() {
            let p = port->0;
            assert(located[j] == p[j - host.len() - 1]);
            assert(p.contains(p[j - host.len() - 1]));
        }
    }
    if m + 1 < located.len() && path->0.len() == 0 {
        assert(located[m + 1] == suffix[0]);
        assert(suffix.contains(suffix[0]));
    }
}

/// A user before it brings no slash.
proof fn lemma_before_path_with_user(user: Option<Seq<char>>, located: Seq<char>, m: int)
    requires
        user matches Some(u) ==> !u.contains('/'),
        0 <= m <= located.len(),
        forall|j: int| 0 <= j < m ==> (#[trigger] located[j]) != '/',
        m < located.len() ==> located[m] == '/',
    ensures
        ({
            let lead = marked(user, "@"@);
            let rest = lead + located;
            &&& forall|j: int| 0 <= j < lead.len() + m ==> (#[trigger] rest[j]) != '/'
            &&& lead.len() + m < rest.len() ==> rest[lead.len() + m] == '/'
        }),
{
    reveal_strlit("@");
    let lead = marked(user, "@"@);
    let rest = lead + located;
    assert forall|j: int| 0 <= j < lead.len() + m implies (#[trigger] rest[j]) != '/' by {
        if j < lead.len() {
            let u = user->0;
            if j < u.len() {
                assert(rest[j] == u[j]);
                assert(u.contains(u[j]));
            } else {
                assert(rest[j] == '@');
            }
        } else {
            assert(rest[j] == located[j - lead.len()]);
        }
    }
}

/// What comes before the path does not end with a colon, unless the port does or is
/// empty.
proof fn lemma_no_colon_before_path(
    user: Option<Seq<char>>,
    host: Seq<char>,
    port: Option<Seq<char>>,
    located: Seq<char>,
    m: int,
)
    requires
        !host.contains(':'),
        port matches Some(p) ==> p.len() > 0 && p.last() != ':',
        m == (host + led(':', port)).len(),
        m <= located.len(),
        located.take(m) == host + led(':', port),
        marked(user, "@"@).len() + m > 0,
    ensures
        ({
            let lead = marked(user, "@"@);
            (lead + located)[lead.len() + m - 1] != ':'
        }),
{
    reveal_strlit("@");
    let lead = marked(user, "@"@);
    let rest = lead + located;
    if m > 0 {
        assert(rest[lead.len() + m - 1] == located.take(m)[m - 1]);
        if port is None {
            assert(located.take(m)[m - 1] == host[m - 1]);
            assert(host.contains(host[m - 1]));
        } else {
            assert(located.take(m)[m - 1] == (port->0).last());
        }
    } else {
        assert(rest[lead.len() - 1] == '@');
    }
}

/// Scheme and user are taken off, each where it is there.
#[verifier::spinoff_prover]
#[verifier::rlimit(50)]
proof fn lemma_scheme_and_user_off(
    scheme: Option<Seq<char>>,
    user: Option<Seq<char>>,
    host: Seq<char>,
    port: Option<Seq<char>>,
    path: Option<Seq<char>>,
    git: bool,
)
    requires
        scheme matches Some(s) ==> !s.contains('/'),
        user matches Some(u) ==> !u.contains('/') && !u.contains('@'),
        !host.contains('/'),
        !host.contains(':'),
        port matches Some(p) ==> !p.contains('/'),
        user is None ==> !host.contains('@') && (port matches Some(p) ==> !p.contains('@')),
        scheme is None && path is Some && path->0.len() > 0 && path->0[0] == '/' ==> (port matches
            Some(p) ==> p.len() > 0 && p.last() != ':'),
    ensures
        allowlist::without_user(
            allowlist::without_scheme(address(scheme, user, host, port, path, git)),
        ) == place(host, port, path) + if git {
            ".git"@
        } else {
            ""@
        },
{
    reveal_strlit(".git");
    reveal_strlit("");
    let suffix = if git {
        ".git"@
    } else {
        ""@
    };
    let located = place(host, port, path) + suffix;
    let rest = marked(user, "@"@) + located;
    // Where the path starts, or the end where there is none.
    let m = if path is Some {
        (host + led(':', port)).len() as int
    } else {
        located.len() as int
    };
    let at = marked(user, "@"@).len() + m;
    lemma_before_path(user is None, host, port, path, suffix, m);
    lemma_before_path_with_user(user, located, m);
    if scheme is None && 0 < at && at + 1 < rest.len() {
        assert(rest[at + 1] == located[m + 1]);
        if rest[at + 1] == '/' {
            assert(located.take(m) =~= host + led(':', port));
            lemma_no_colon_before_path(user, host, port, located, m);
        }
    }
    lemma_scheme_off(scheme, rest, at);
    lemma_user_off(user, located, m);
}

/// `.git` is taken off where it is there.
proof fn lemma_git_off(
    scheme: Option<Seq<char>>,
    user: Option<Seq<char>>,
    body: Seq<char>,
    git: bool,
)
    requires
        ({
            let core = marked(scheme, "://"@) + (marked(user, "@"@) + (body + if git {
                ".git"@
            } else {
                ""@
            }));
            !git ==> core.len() < 4 || core.skip(core.len() - 4) != ".git"@
        }),
    ensures
        text::without_suffix(
            body + if git {
                ".git"@
            } else {
                ""@
            },
            ".git"@,
        ) == body,
{
    reveal_strlit(".git");
    reveal_strlit("");
    laws::text::law_suffixes_are_taken_off(body, body, ".git"@);
    if !git {
        let located = body + ""@;
        let core = marked(scheme, "://"@) + (marked(user, "@"@) + located);
        assert(located =~= body);
        if text::ends_in(located, ".git"@) {
            assert(core.skip(core.len() - 4) =~= located.subrange(
                located.len() - 4,
                located.len() as int,
            ));
        }
    }
}

/// The normal form of a URL is its host in small letters and its path. White space
/// around it, scheme, user, port, `.git` at its end, query and fragment, each where it
/// is there, are gone.
#[verifier::spinoff_prover]
#[verifier::rlimit(50)]
pub proof fn law_the_normal_form_of_a_url(
    before: Seq<char>,
    scheme: Option<Seq<char>>,
    user: Option<Seq<char>>,
    host: Seq<char>,
    port: Option<Seq<char>>,
    path: Option<Seq<char>>,
    git: bool,
    mark: char,
    query: Option<Seq<char>>,
    after: Seq<char>,
)
    requires
        mark == '?' || mark == '#',
        forall|i: int| 0 <= i < before.len() ==> text::is_white_space(#[trigger] before[i]),
        forall|i: int| 0 <= i < after.len() ==> text::is_white_space(#[trigger] after[i]),
        scheme matches Some(s) ==> !s.contains('/'),
        user matches Some(u) ==> !u.contains('/') && !u.contains('@'),
        !host.contains('/'),
        !host.contains(':'),
        port matches Some(p) ==> !p.contains('/'),
        user is None ==> !host.contains('@') && (port matches Some(p) ==> !p.contains('@')),
        scheme is None && path is Some && path->0.len() > 0 && path->0[0] == '/' ==> (port matches
            Some(p) ==> p.len() > 0 && p.last() != ':'),
        ({
            let core = address(scheme, user, host, port, path, git);
            &&& core.len() > 0
            &&& !text::is_white_space(core[0])
            &&& query is None ==> !text::is_white_space(core.last())
            &&& !core.contains('?')
            &&& !core.contains('#')
            &&& !git ==> core.len() < 4 || core.skip(core.len() - 4) != ".git"@
        }),
    ensures
        allowlist::normalized(
            before + address(scheme, user, host, port, path, git) + led(mark, query) + after,
        ) == text::lower(host) + (if path is Some && path->0.len() > 0 {
            seq!['/'] + path->0
        } else {
            Seq::empty()
        }),
{
    let core = address(scheme, user, host, port, path, git);
    let body = place(host, port, path);
    lemma_cut_off(before, core, mark, query, after);
    lemma_scheme_and_user_off(scheme, user, host, port, path, git);
    lemma_git_off(scheme, user, body, git);
    assert(allowlist::url_body(before + core + led(mark, query) + after) == body);
    lemma_place(host, port, path);
    if path is Some && path->0.len() > 0 {
        assert(text::lower(host) + seq!['/'] + path->0 =~= text::lower(host) + (seq!['/']
            + path->0));
    } else {
        assert(text::lower(host) + Seq::<char>::empty() =~= text::lower(host));
    }
}

/// A blank URL has an empty normal form.
pub proof fn law_a_blank_url_has_no_host(url: Seq<char>)
    requires
        forall|i: int| 0 <= i < url.len() ==> text::is_white_space(#[trigger] url[i]),
    ensures
        allowlist::normalized(url) == Seq::<char>::empty(),
{
    reveal_strlit("://");
    reveal_strlit(".git");
    let none = Seq::<char>::empty();
    laws::text::law_white_space_around_does_not_matter(url, none, none);
    assert(url + none + none =~= url);
    let bare = text::before_any(none, seq!['?', '#']);
    assert(bare =~= none);
    assert(allowlist::url_body(url) =~= none);
    assert(text::before_any(none, seq!['/']) =~= none);
    assert(text::before_any(none, seq![':']) =~= none);
    assert(text::lower(none) =~= none);
}

} // verus!
