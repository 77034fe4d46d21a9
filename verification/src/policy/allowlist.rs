//! Which URLs plugins, skills and MCP servers may be installed from.
//!
//! Each pattern is a glob over the host and path of a URL, after scheme, query
//! and fragment are gone. `*` stands for one path segment; within a segment it
//! stands for any run of characters; a `*.` that leads the host stands for any host
//! prefix; everything else is literal. A pattern without `/` speaks of the host alone.
//! The host of a pattern is taken in small letters, as the host of a URL is. A further
//! segment matches as the pattern is written or in small letters; the path of a URL is
//! left as it is.
//!
//! | Pattern | Matches |
//! |---|---|
//! | `github.com` | any path under `github.com` |
//! | `github.com/acmecorp/*` | any single repo under that org |
//! | `github.com/acmecorp/*/*` | any subpath two levels deep |
//! | `internal.acme.example` | any URL on that host |
//! | `*.acme.example` | any subdomain of `acme.example`, and that host itself |
//! | `*.acme.example/tools` | the path `tools`, and below, on any of these hosts |

use vstd::prelude::*;
use vstd::slice::slice_subrange;

use crate::text;
use crate::policy::{ActivePolicy, Policy};
use crate::text::{
    has_suffix, lowercase, position_from, push_chars, push_decimal, same_chars, split_at_char,
    stands_at, stop_position, strip_suffix, strip_trailing, take_before, to_chars, to_text, trim,
};

verus! {

// ---------------------------------------------------------------------------
// Wildcards within a segment

/// `target` is `pattern` with each `*` replaced by some run of characters.
pub open spec fn wildcard(pattern: Seq<char>, target: Seq<char>) -> bool
    decreases pattern.len(),
{
    if pattern.len() == 0 {
        target.len() == 0
    } else if pattern[0] == '*' {
        exists|k: int| 0 <= k <= target.len() && wildcard(pattern.skip(1), #[trigger] target.skip(k))
    } else {
        target.len() > 0 && target[0] == pattern[0] && wildcard(pattern.skip(1), target.skip(1))
    }
}

/// The chunks stand in `t` in order and apart, the last one at the very end.
spec fn chunks_in_order(chunks: Seq<Seq<char>>, t: Seq<char>) -> bool
    decreases chunks.len(),
{
    if chunks.len() == 0 {
        t.len() == 0
    } else if chunks.len() == 1 {
        t.len() >= chunks[0].len() && text::occurs_at(t, chunks[0], t.len() - chunks[0].len())
    } else {
        exists|k: int| #[trigger]
            text::occurs_at(t, chunks[0], k) && chunks_in_order(
                chunks.skip(1),
                t.skip(k + chunks[0].len()),
            )
    }
}

/// `t` starts with the first chunk and holds the others in order after it.
spec fn anchored(chunks: Seq<Seq<char>>, t: Seq<char>) -> bool {
    if chunks.len() <= 1 {
        t == chunks[0]
    } else {
        text::occurs_at(t, chunks[0], 0) && chunks_in_order(
            chunks.skip(1),
            t.skip(chunks[0].len() as int),
        )
    }
}

/// Chunks that stand in the end of `t` stand in all of `t`.
proof fn lemma_chunks_later(chunks: Seq<Seq<char>>, t: Seq<char>, a: int)
    requires
        chunks.len() > 0,
        0 <= a <= t.len(),
        chunks_in_order(chunks, t.skip(a)),
    ensures
        chunks_in_order(chunks, t),
{
    let u = t.skip(a);
    let c = chunks[0];
    if chunks.len() == 1 {
        let k = u.len() - c.len();
        assert(t.subrange(a + k, a + k + c.len()) =~= u.subrange(k, k + c.len()));
    } else {
        let k = choose|k: int| #[trigger]
            text::occurs_at(u, c, k) && chunks_in_order(chunks.skip(1), u.skip(k + c.len()));
        assert(t.subrange(a + k, a + k + c.len()) =~= u.subrange(k, k + c.len()));
        assert(u.skip(k + c.len()) =~= t.skip(a + k + c.len()));
        assert(text::occurs_at(t, c, a + k));
    }
}

/// A pattern matches exactly where its chunks, cut at the stars, stand in order.
proof fn lemma_wildcard_chunks(pattern: Seq<char>, t: Seq<char>)
    ensures
        wildcard(pattern, t) == anchored(text::split(pattern, '*'), t),
    decreases pattern.len(),
{
    let whole = text::split(pattern, '*');
    if pattern.len() == 0 {
        assert(whole[0] =~= Seq::<char>::empty());
        if t.len() == 0 {
            assert(t =~= whole[0]);
        }
    } else {
        let rest = pattern.skip(1);
        let ps = text::split(rest, '*');
        text::lemma_split_step(pattern, '*');
        if pattern[0] == '*' {
            assert(whole.skip(1) =~= ps);
            assert(t.subrange(0, 0) =~= Seq::<char>::empty());
            assert(t.skip(0) =~= t);
            assert(anchored(whole, t) == chunks_in_order(ps, t));
            if wildcard(pattern, t) {
                let k = choose|k: int|
                    0 <= k <= t.len() && wildcard(pattern.skip(1), #[trigger] t.skip(k));
                assert(0 <= k <= t.len() && wildcard(rest, t.skip(k)));
                lemma_wildcard_chunks(rest, t.skip(k));
                let u = t.skip(k);
                if ps.len() == 1 {
                    assert(t.subrange(k, t.len() as int) =~= u);
                } else {
                    assert(t.subrange(k, k + ps[0].len()) =~= u.subrange(0, ps[0].len() as int));
                    assert(text::occurs_at(t, ps[0], k));
                    assert(u.skip(ps[0].len() as int) =~= t.skip(k + ps[0].len()));
                }
                assert(chunks_in_order(ps, t));
            }
            if chunks_in_order(ps, t) {
                let k = if ps.len() == 1 {
                    t.len() - ps[0].len()
                } else {
                    choose|k: int| #[trigger]
                        text::occurs_at(t, ps[0], k) && chunks_in_order(
                            ps.skip(1),
                            t.skip(k + ps[0].len()),
                        )
                };
                let u = t.skip(k);
                lemma_wildcard_chunks(rest, u);
                if ps.len() == 1 {
                    assert(t.subrange(k, t.len() as int) =~= u);
                } else {
                    assert(t.subrange(k, k + ps[0].len()) =~= u.subrange(0, ps[0].len() as int));
                    assert(u.skip(ps[0].len() as int) =~= t.skip(k + ps[0].len()));
                }
                assert(wildcard(rest, t.skip(k)));
            }
        } else if t.len() > 0 && t[0] == pattern[0] {
            let u = t.skip(1);
            lemma_wildcard_chunks(rest, u);
            assert(t =~= seq![t[0]] + u);
            let c = seq![pattern[0]] + ps[0];
            assert(whole[0] == c);
            assert(whole.skip(1) =~= ps.skip(1));
            if ps.len() == 1 {
                if t == c {
                    assert(u =~= ps[0]);
                }
            } else if c.len() <= t.len() {
                assert(u.skip(ps[0].len() as int) =~= t.skip(c.len() as int));
                if text::occurs_at(t, c, 0) {
                    assert(u.subrange(0, ps[0].len() as int) =~= c.skip(1));
                    assert(c.skip(1) =~= ps[0]);
                }
                if text::occurs_at(u, ps[0], 0) {
                    assert(t.subrange(0, c.len() as int) =~= c);
                }
            }
        } else {
            let c = seq![pattern[0]] + ps[0];
            assert(whole[0] == c);
            if t == c || text::occurs_at(t, c, 0) {
                assert(t.len() > 0);
                assert(t.subrange(0, c.len() as int)[0] == t[0]);
                assert(c[0] == pattern[0]);
            }
        }
    }
}

/// Taking the leftmost place for a chunk loses no match.
proof fn lemma_leftmost(chunks: Seq<Seq<char>>, t: Seq<char>, cursor: int)
    requires
        chunks.len() > 1,
        0 <= cursor <= t.len(),
    ensures
        chunks_in_order(chunks, t.skip(cursor)) == match text::find_from(t, chunks[0], cursor) {
            Some(k) => chunks_in_order(chunks.skip(1), t.skip(k + chunks[0].len())),
            None => false,
        },
{
    let c = chunks[0];
    let u = t.skip(cursor);
    text::lemma_find_from(t, c, cursor);
    if chunks_in_order(chunks, u) {
        let j = choose|j: int| #[trigger]
            text::occurs_at(u, c, j) && chunks_in_order(chunks.skip(1), u.skip(j + c.len()));
        assert(t.subrange(cursor + j, cursor + j + c.len()) =~= u.subrange(j, j + c.len()));
        assert(text::occurs_at(t, c, cursor + j));
        let k = text::find_from(t, c, cursor)->0;
        assert(k <= cursor + j);
        let v = t.skip(k + c.len());
        assert(v.skip(cursor + j - k) =~= u.skip(j + c.len()));
        lemma_chunks_later(chunks.skip(1), v, cursor + j - k);
    }
    if let Some(k) = text::find_from(t, c, cursor) {
        assert(u.subrange(k - cursor, k - cursor + c.len()) =~= t.subrange(k, k + c.len()));
        assert(text::occurs_at(u, c, k - cursor));
        assert(u.skip(k - cursor + c.len()) =~= t.skip(k + c.len()));
    }
}

/// What a pattern segment asks of the segment at its place.
pub open spec fn segment_matches(pattern: Seq<char>, segment: Seq<char>) -> bool {
    if pattern.contains('*') {
        wildcard(pattern, segment)
    } else {
        pattern == segment
    }
}

/// Whether `target` matches a pattern segment.
fn glob_chars(pattern: &[char], target: &[char]) -> (yes: bool)
    ensures
        yes == segment_matches(pattern@, target@),
{
    let chunks = split_at_char(pattern, '*');
    let ghost cs = text::split(pattern@, '*');
    let n: usize = chunks.len();
    proof {
        text::lemma_parts(chunks@, cs);
        text::lemma_split_parts(pattern@, '*');
        lemma_wildcard_chunks(pattern@, target@);
    }
    if n == 1 {
        return same_chars(pattern, target);
    }
    if !stands_at(target, chunks[0], 0) {
        return false;
    }
    let len: usize = target.len();
    let mut cursor: usize = chunks[0].len();
    let mut i: usize = 1;
    while i < n - 1
        invariant
            1 <= i <= n - 1,
            n == chunks@.len() == cs.len(),
            forall|j: int| 0 <= j < cs.len() ==> #[trigger] chunks@[j]@ == cs[j],
            len == target@.len(),
            cursor <= len,
            segment_matches(pattern@, target@) == chunks_in_order(
                cs.skip(i as int),
                target@.skip(cursor as int),
            ),
        decreases n - i,
    {
        proof {
            lemma_leftmost(cs.skip(i as int), target@, cursor as int);
            text::lemma_find_from(target@, cs[i as int], cursor as int);
            assert(cs.skip(i as int)[0] == cs[i as int]);
            assert(cs.skip(i as int).skip(1) =~= cs.skip(i + 1));
        }
        match position_from(target, chunks[i], cursor) {
            Some(at) => {
                assert(text::occurs_at(target@, cs[i as int], at as int));
                cursor = at + chunks[i].len();
            },
            None => {
                return false;
            },
        }
        i += 1;
    }
    let last = chunks[n - 1];
    let ghost tail = target@.skip(cursor as int);
    assert(cs.skip(n - 1) =~= seq![last@]);
    if last.len() > len - cursor {
        return false;
    }
    let from: usize = len - last.len();
    assert(tail.subrange(tail.len() - last@.len(), tail.len() as int) =~= target@.subrange(
        from as int,
        len as int,
    ));
    stands_at(target, last, from)
}

/// Whether `target` matches a pattern segment such as `repo-*`.
pub fn glob_segment(pattern: &str, target: &str) -> (yes: bool)
    ensures
        yes == segment_matches(pattern@, target@),
{
    glob_chars(to_chars(pattern).as_slice(), to_chars(target).as_slice())
}

// ---------------------------------------------------------------------------
// Normal form of a URL

/// `s` without a scheme: what stands before a `://` that no `/` comes before, and the `://`.
pub open spec fn without_scheme(s: Seq<char>) -> Seq<char> {
    let k = text::stop_index(s, seq!['/']) - 1;
    if text::occurs_at(s, "://"@, k) {
        s.skip(k + 3)
    } else {
        s
    }
}

/// `s` without a user: what stands before the first `@`, and the `@`, where no `/`
/// comes before it.
pub open spec fn without_user(s: Seq<char>) -> Seq<char> {
    let k = text::stop_index(s, seq!['@', '/']);
    if k < s.len() && s[k] == '@' {
        s.skip(k + 1)
    } else {
        s
    }
}

/// The part of a URL that is matched: without query and fragment, scheme and user,
/// and without `.git` at its end.
pub open spec fn url_body(url: Seq<char>) -> Seq<char> {
    let bare = text::before_any(text::trimmed(url), seq!['?', '#']);
    text::without_suffix(without_user(without_scheme(bare)), ".git"@)
}

/// The host of a body: what comes before the first `/`, in small letters and without a port.
pub open spec fn body_host(body: Seq<char>) -> Seq<char> {
    text::lower(text::before_any(text::before_any(body, seq!['/']), seq![':']))
}

/// The path of a body: what follows the first `/`.
pub open spec fn body_path(body: Seq<char>) -> Seq<char> {
    body.skip(text::stop_index(body, seq!['/']) + 1)
}

/// `host`, or `host/path` where the URL has a path.
pub open spec fn normalized(url: Seq<char>) -> Seq<char> {
    let body = url_body(url);
    if text::stop_index(body, seq!['/']) < body.len() - 1 {
        body_host(body) + seq!['/'] + body_path(body)
    } else {
        body_host(body)
    }
}

/// The characters of `s` without a scheme.
fn strip_scheme(s: &[char]) -> (out: &[char])
    ensures
        out@ == without_scheme(s@),
{
    proof {
        reveal_strlit("://");
        text::lemma_stop_index(s@, seq!['/']);
    }
    let slash: [char; 1] = ['/'];
    assert(slash@ =~= seq!['/']);
    let n: usize = s.len();
    let k = stop_position(s, &slash);
    if k > 0 && stands_at(s, to_chars("://").as_slice(), k - 1) {
        assert(k + 2 <= n);
        slice_subrange(s, k + 2, n)
    } else {
        s
    }
}

/// The characters of `s` without a user.
fn strip_user(s: &[char]) -> (out: &[char])
    ensures
        out@ == without_user(s@),
{
    proof {
        text::lemma_stop_index(s@, seq!['@', '/']);
    }
    let stops: [char; 2] = ['@', '/'];
    assert(stops@ =~= seq!['@', '/']);
    let k = stop_position(s, &stops);
    if k < s.len() && s[k] == '@' {
        slice_subrange(s, k + 1, s.len())
    } else {
        s
    }
}

/// Strips query and fragment, scheme, user and trailing `.git`, and lowercases the
/// host without its port. Leaves `host[/path/...]` for matching.
pub fn normalize_url_for_match(url: &str) -> (out: String)
    ensures
        out@ == normalized(url@),
{
    let chars = to_chars(url);
    let ends: [char; 2] = ['?', '#'];
    assert(ends@ =~= seq!['?', '#']);
    let bare = take_before(trim(chars.as_slice()), &ends);
    let located = strip_user(strip_scheme(bare));
    let body = strip_suffix(located, to_chars(".git").as_slice());
    assert(body@ == url_body(url@));

    let slash: [char; 1] = ['/'];
    assert(slash@ =~= seq!['/']);
    let colon: [char; 1] = [':'];
    assert(colon@ =~= seq![':']);
    let host = lowercase(take_before(take_before(body, &slash), &colon));
    let k = stop_position(body, &slash);
    let mut out = to_text(host.as_slice());
    if k < body.len() && k + 1 < body.len() {
        let path = slice_subrange(body, k + 1, body.len());
        assert(path@ =~= body_path(body@));
        out.push('/');
        push_chars(&mut out, path);
        assert(out@ =~= body_host(body@) + seq!['/'] + body_path(body@));
    }
    out
}

// ---------------------------------------------------------------------------
// Matching a pattern

/// A pattern without the white space around it and the slashes at its end.
pub open spec fn pattern_text(pattern: Seq<char>) -> Seq<char> {
    text::trim_end_char(text::trimmed(pattern), '/')
}

/// `host` is `domain` or one of its subdomains.
pub open spec fn in_domain(host: Seq<char>, domain: Seq<char>) -> bool {
    host == domain || text::ends_in(host, seq!['.'] + domain)
}

/// What the first segment of a pattern, in small letters, asks of a host. A leading
/// `*.` stands for any host prefix. Where the pattern has no path, anything else is
/// literal.
pub open spec fn host_matches(pattern: Seq<char>, host: Seq<char>, alone: bool) -> bool {
    if text::occurs_at(pattern, "*."@, 0) {
        in_domain(host, pattern.skip(2))
    } else if alone {
        pattern == host
    } else {
        segment_matches(pattern, host)
    }
}

/// What a further segment of a pattern asks of the segment at its place: that it
/// matches as the pattern is written or in small letters.
pub open spec fn path_segment_matches(pattern: Seq<char>, segment: Seq<char>) -> bool {
    segment_matches(pattern, segment) || segment_matches(text::lower(pattern), segment)
}

/// The normal form `n` of a URL matches `pattern`: the host does, and each further
/// segment of the pattern matches the segment at its place.
pub open spec fn pattern_matches(pattern: Seq<char>, n: Seq<char>) -> bool {
    let wanted = text::split(pattern_text(pattern), '/');
    let segments = text::split(text::trim_end_char(n, '/'), '/');
    &&& wanted.len() <= segments.len()
    &&& host_matches(text::lower(wanted[0]), segments[0], wanted.len() == 1)
    &&& forall|i: int|
        1 <= i < wanted.len() ==> #[trigger] path_segment_matches(wanted[i], segments[i])
}

/// Whether a host matches the first segment of a pattern.
fn host_segment(pattern: &[char], host: &[char], alone: bool) -> (yes: bool)
    ensures
        yes == host_matches(pattern@, host@, alone),
{
    proof {
        reveal_strlit("*.");
    }
    if stands_at(pattern, to_chars("*.").as_slice(), 0) {
        let domain = slice_subrange(pattern, 2, pattern.len());
        assert(domain@ =~= pattern@.skip(2));
        let mut dotted: Vec<char> = Vec::new();
        dotted.push('.');
        dotted.extend_from_slice(domain);
        assert(dotted@ =~= seq!['.'] + domain@);
        same_chars(host, domain) || has_suffix(host, dotted.as_slice())
    } else if alone {
        same_chars(pattern, host)
    } else {
        glob_chars(pattern, host)
    }
}

/// Whether the normal form of a URL matches one pattern of the allow-list.
pub fn matches_pattern(pattern: &str, normalized: &str) -> (yes: bool)
    ensures
        yes == pattern_matches(pattern@, normalized@),
{
    let pattern_chars = to_chars(pattern);
    let p = strip_trailing(trim(pattern_chars.as_slice()), '/');
    let n_chars = to_chars(normalized);
    let target = strip_trailing(n_chars.as_slice(), '/');
    let segments = split_at_char(target, '/');
    let wanted = split_at_char(p, '/');
    let ghost ss = text::split(target@, '/');
    let ghost ws = text::split(p@, '/');
    proof {
        text::lemma_parts(segments@, ss);
        text::lemma_parts(wanted@, ws);
        text::lemma_split_parts(target@, '/');
        text::lemma_split_parts(p@, '/');
    }
    if wanted.len() > segments.len() {
        return false;
    }
    if !host_segment(lowercase(wanted[0]).as_slice(), segments[0], wanted.len() == 1) {
        return false;
    }
    #[verifier::loop_isolation(false)]
    for i in 1..wanted.len()
        invariant
            forall|j: int| 1 <= j < i ==> #[trigger] path_segment_matches(ws[j], ss[j]),
    {
        if !glob_chars(wanted[i], segments[i]) && !glob_chars(
            lowercase(wanted[i]).as_slice(),
            segments[i],
        ) {
            assert(!path_segment_matches(ws[i as int], ss[i as int]));
            return false;
        }
    }
    true
}

// ---------------------------------------------------------------------------
// The decision

/// Result of an allow-list check.
#[derive(Debug, PartialEq, Eq)]
pub enum AllowDecision {
    /// No policy is active, or its plugin rules are switched off: anything goes.
    NoPolicy,
    /// The rules are on and the URL matches at least one pattern.
    Allowed,
    /// The rules are on and the URL matches no pattern.
    Denied { reason: String },
}

impl AllowDecision {
    /// Whether the caller may go on.
    pub fn is_allowed(&self) -> (yes: bool)
        ensures
            yes == !(self is Denied),
    {
        match self {
            AllowDecision::NoPolicy => true,
            AllowDecision::Allowed => true,
            AllowDecision::Denied { .. } => false,
        }
    }
}

/// The policy's plugin rules are there and switched on.
pub open spec fn restricts(policy: Policy) -> bool {
    policy.policies.plugins matches Some(p) && p.enabled
}

/// Some pattern of the allow-list matches the URL.
pub open spec fn listed(hosts: Seq<String>, url: Seq<char>) -> bool {
    exists|i: int|
        0 <= i < hosts.len() && pattern_matches((#[trigger] hosts[i])@, normalized(url))
}

/// Why a URL is refused.
pub open spec fn refusal(hosts: Seq<String>, url: Seq<char>) -> Seq<char> {
    if hosts.len() == 0 {
        url + ": org policy has plugins.enabled but no allowed_hosts configured (deny-all)"@
    } else {
        url + ": host doesn't match any of "@ + text::decimal(hosts.len())
            + " allowed pattern(s) — see your org's thClaws policy"@
    }
}

/// `decision` is what `policy` says of the URL.
pub open spec fn decides(policy: Policy, url: Seq<char>, decision: AllowDecision) -> bool {
    let hosts = policy.policies.plugins->0.allowed_hosts@;
    match decision {
        AllowDecision::NoPolicy => !restricts(policy),
        AllowDecision::Allowed => restricts(policy) && listed(hosts, url),
        AllowDecision::Denied { reason } => {
            &&& restricts(policy)
            &&& !listed(hosts, url)
            &&& reason@ == refusal(hosts, url)
        },
    }
}

/// What the active policy, if there is one, says of `url`.
pub fn check_url(url: &str, active: Option<&ActivePolicy>) -> (decision: AllowDecision)
    ensures
        active is None ==> decision is NoPolicy,
        active matches Some(a) ==> decides(a.policy, url@, decision),
{
    match active {
        Some(a) => check_url_with(url, &a.policy),
        None => AllowDecision::NoPolicy,
    }
}

/// What `policy` says of `url`.
pub fn check_url_with(url: &str, policy: &Policy) -> (decision: AllowDecision)
    ensures
        decides(*policy, url@, decision),
{
    let plugins = match &policy.policies.plugins {
        Some(p) => p,
        None => {
            return AllowDecision::NoPolicy;
        },
    };
    if !plugins.enabled {
        return AllowDecision::NoPolicy;
    }
    let ghost hosts = plugins.allowed_hosts@;
    let normal = normalize_url_for_match(url);
    let count: usize = plugins.allowed_hosts.len();
    let mut reason = to_text(to_chars(url).as_slice());
    if count == 0 {
        reason.append(": org policy has plugins.enabled but no allowed_hosts configured (deny-all)");
        return AllowDecision::Denied { reason };
    }
    for i in 0..count
        invariant
            hosts == plugins.allowed_hosts@,
            count == hosts.len(),
            restricts(*policy),
            hosts == policy.policies.plugins->0.allowed_hosts@,
            normal@ == normalized(url@),
            forall|j: int| 0 <= j < i ==> !pattern_matches((#[trigger] hosts[j])@, normalized(url@)),
    {
        if matches_pattern(plugins.allowed_hosts[i].as_str(), normal.as_str()) {
            assert(pattern_matches(hosts[i as int]@, normalized(url@)));
            return AllowDecision::Allowed;
        }
    }
    reason.append(": host doesn't match any of ");
    push_decimal(&mut reason, count);
    reason.append(" allowed pattern(s) — see your org's thClaws policy");
    AllowDecision::Denied { reason }
}

// ---------------------------------------------------------------------------
// Laws

/// A policy that lists no pattern refuses every URL.
pub proof fn law_empty_list_refuses_all(policy: Policy, url: Seq<char>, decision: AllowDecision)
    requires
        restricts(policy),
        policy.policies.plugins->0.allowed_hosts@.len() == 0,
        decides(policy, url, decision),
    ensures
        decision is Denied,
{
}

/// A single `*` stands for any segment.
pub proof fn law_star_matches_any_segment(segment: Seq<char>)
    ensures
        segment_matches(seq!['*'], segment),
{
    let star = seq!['*'];
    assert(star[0] == '*');
    assert(star.contains('*'));
    let rest = star.skip(1);
    let end = segment.skip(segment.len() as int);
    assert(rest.len() == 0 && end.len() == 0);
    assert(wildcard(rest, end));
}

/// A segment pattern with its only `*` at the end asks for a segment that starts
/// with what comes before the star.
pub proof fn law_trailing_star_asks_for_a_start(start: Seq<char>, segment: Seq<char>)
    requires
        !start.contains('*'),
    ensures
        segment_matches(start.push('*'), segment) == text::occurs_at(segment, start, 0),
    decreases start.len(),
{
    let pattern = start.push('*');
    assert(pattern[start.len() as int] == '*');
    assert(pattern.contains('*'));
    if start.len() == 0 {
        assert(pattern =~= seq!['*']);
        law_star_matches_any_segment(segment);
        assert(segment.subrange(0, 0) =~= start);
    } else {
        assert(pattern[0] == start[0]);
        assert(start.contains(start[0]));
        let rest = start.skip(1);
        assert(pattern.skip(1) =~= rest.push('*'));
        assert(!rest.contains('*')) by {
            if rest.contains('*') {
                let i = choose|i: int| 0 <= i < rest.len() && rest[i] == '*';
                assert(start[i + 1] == '*');
            }
        }
        if segment.len() > 0 {
            let tail = segment.skip(1);
            law_trailing_star_asks_for_a_start(rest, tail);
            assert(rest.push('*')[rest.len() as int] == '*');
            let n = start.len() as int;
            if text::occurs_at(segment, start, 0) {
                assert(segment.subrange(0, n)[0] == segment[0]);
                assert(tail.subrange(0, n - 1) =~= segment.subrange(0, n).skip(1));
            }
            if segment[0] == start[0] && text::occurs_at(tail, rest, 0) {
                assert(segment.subrange(0, n) =~= seq![start[0]] + rest);
                assert(start =~= seq![start[0]] + rest);
            }
        }
    }
}

/// A domain pattern takes in the domain itself and each of its subdomains, with
/// whatever the rest of the pattern asks of the path.
pub proof fn law_domain_takes_in_subdomains(sub: Seq<char>, domain: Seq<char>, alone: bool)
    ensures
        host_matches("*."@ + domain, domain, alone),
        host_matches("*."@ + domain, sub + seq!['.'] + domain, alone),
{
    reveal_strlit("*.");
    let pattern = "*."@ + domain;
    let host = sub + seq!['.'] + domain;
    let dotted = seq!['.'] + domain;
    assert(pattern.subrange(0, 2) =~= "*."@);
    assert(pattern.skip(2) =~= domain);
    assert(host.subrange(host.len() - dotted.len(), host.len() as int) =~= dotted);
}

/// Making letters small does not change what is white space.
proof fn lemma_lower_trimmed(s: Seq<char>)
    ensures
        text::trimmed(text::lower(s)) == text::lower(text::trimmed(s)),
{
    lemma_lower_trim_start(s);
    lemma_lower_trim_end(text::trim_start(s));
}

proof fn lemma_lower_trim_start(s: Seq<char>)
    ensures
        text::trim_start(text::lower(s)) == text::lower(text::trim_start(s)),
    decreases s.len(),
{
    if s.len() > 0 && text::is_white_space(s[0]) {
        assert(text::lower(s).skip(1) =~= text::lower(s.skip(1)));
        lemma_lower_trim_start(s.skip(1));
    }
}

proof fn lemma_lower_trim_end(s: Seq<char>)
    ensures
        text::trim_end(text::lower(s)) == text::lower(text::trim_end(s)),
    decreases s.len(),
{
    if s.len() > 0 && text::is_white_space(s.last()) {
        assert(text::lower(s).drop_last() =~= text::lower(s.drop_last()));
        lemma_lower_trim_end(s.drop_last());
    }
}

proof fn lemma_lower_trim_slashes(s: Seq<char>)
    ensures
        text::trim_end_char(text::lower(s), '/') == text::lower(text::trim_end_char(s, '/')),
    decreases s.len(),
{
    if s.len() > 0 && s.last() == '/' {
        assert(text::lower(s).drop_last() =~= text::lower(s.drop_last()));
        lemma_lower_trim_slashes(s.drop_last());
    }
}

/// The text of a pattern in small letters is that of the pattern in small letters.
proof fn lemma_pattern_text(pattern: Seq<char>)
    ensures
        text::lower(pattern_text(pattern)) == pattern_text(text::lower(pattern)),
{
    lemma_lower_trimmed(pattern);
    lemma_lower_trim_slashes(text::trimmed(pattern));
}

/// Making letters small changes no separator.
proof fn lemma_lower_split(s: Seq<char>)
    ensures
        text::split(text::lower(s), '/').len() == text::split(s, '/').len(),
        forall|i: int|
            0 <= i < text::split(s, '/').len() ==> #[trigger] text::split(text::lower(s), '/')[i]
                == text::lower(text::split(s, '/')[i]),
    decreases s.len(),
{
    let t = text::lower(s);
    let stops = seq!['/'];
    let k = text::stop_index(s, stops);
    text::lemma_stop_index(s, stops);
    assert(stops[0] == '/');
    assert forall|j: int| 0 <= j < k implies !stops.contains(#[trigger] t[j]) by {
        assert(!stops.contains(s[j]));
        assert(t[j] == text::ascii_lower(s[j]));
    }
    if k < s.len() {
        assert(t[k] == '/');
        text::lemma_stop_index_is(t, stops, k);
        let rest = s.skip(k + 1);
        lemma_lower_split(rest);
        assert(t.skip(k + 1) =~= text::lower(rest));
        assert(t.take(k) =~= text::lower(s.take(k)));
        assert forall|i: int| 0 <= i < text::split(s, '/').len() implies #[trigger] text::split(
            t,
            '/',
        )[i] == text::lower(text::split(s, '/')[i]) by {
            if i > 0 {
                assert(text::split(t, '/')[i] == text::split(text::lower(rest), '/')[i - 1]);
                assert(text::split(s, '/')[i] == text::split(rest, '/')[i - 1]);
            }
        }
    } else {
        text::lemma_stop_index_is(t, stops, k);
    }
}

/// What a pattern matches in small letters, it matches however it is written.
pub proof fn law_small_letters_always_match(pattern: Seq<char>, n: Seq<char>)
    requires
        pattern_matches(text::lower(pattern), n),
    ensures
        pattern_matches(pattern, n),
{
    let p = pattern_text(pattern);
    let wanted = text::split(p, '/');
    let small = text::split(text::lower(p), '/');
    let segments = text::split(text::trim_end_char(n, '/'), '/');
    lemma_pattern_text(pattern);
    lemma_lower_split(p);
    text::lemma_split_parts(p, '/');
    assert(text::lower(small[0]) =~= text::lower(wanted[0]));
    assert forall|i: int| 1 <= i < wanted.len() implies #[trigger] path_segment_matches(
        wanted[i],
        segments[i],
    ) by {
        assert(path_segment_matches(small[i], segments[i]));
        assert(text::lower(small[i]) =~= small[i]);
    }
}

/// The letter case of a pattern without a path does not matter.
pub proof fn law_case_of_a_host_pattern_does_not_matter(
    pattern: Seq<char>,
    other: Seq<char>,
    n: Seq<char>,
)
    requires
        text::lower(pattern) == text::lower(other),
        !pattern_text(pattern).contains('/'),
    ensures
        pattern_matches(pattern, n) == pattern_matches(other, n),
{
    lemma_pattern_text(pattern);
    lemma_pattern_text(other);
    lemma_lower_split(pattern_text(pattern));
    lemma_lower_split(pattern_text(other));
    text::lemma_split_parts(pattern_text(pattern), '/');
    text::lemma_split_parts(pattern_text(other), '/');
    let small = text::split(pattern_text(text::lower(pattern)), '/');
    assert(small[0] == text::lower(text::split(pattern_text(pattern), '/')[0]));
    assert(small[0] == text::lower(text::split(pattern_text(other), '/')[0]));
}

/// What is no `*` is literal: a pattern without stars, with its host in small
/// letters, matches what it spells.
pub proof fn law_a_pattern_without_stars_matches_itself(pattern: Seq<char>)
    requires
        !pattern.contains('*'),
        text::trimmed(pattern) == pattern,
        ({
            let host = text::split(pattern_text(pattern), '/')[0];
            text::lower(host) == host
        }),
    ensures
        pattern_matches(pattern, pattern),
{
    reveal_strlit("*.");
    let p = pattern_text(pattern);
    let wanted = text::split(p, '/');
    lemma_trim_slashes(pattern);
    assert(!p.contains('*')) by {
        if p.contains('*') {
            let i = choose|i: int| 0 <= i < p.len() && p[i] == '*';
            assert(pattern[i] == '*');
        }
    }
    text::lemma_split_parts(p, '/');
    lemma_split_keeps_out(p, '/', '*');
    if text::occurs_at(wanted[0], "*."@, 0) {
        assert(wanted[0].subrange(0, 2)[0] == wanted[0][0]);
    }
}

/// No part of a split holds what the text does not hold.
proof fn lemma_split_keeps_out(s: Seq<char>, sep: char, c: char)
    requires
        !s.contains(c),
    ensures
        forall|i: int|
            0 <= i < text::split(s, sep).len() ==> !(#[trigger] text::split(s, sep)[i]).contains(c),
    decreases s.len(),
{
    let k = text::stop_index(s, seq![sep]);
    text::lemma_stop_index(s, seq![sep]);
    if k < s.len() {
        let head = s.take(k);
        let tail = s.skip(k + 1);
        if head.contains(c) {
            let i = choose|i: int| 0 <= i < head.len() && head[i] == c;
            assert(s[i] == c);
        }
        if tail.contains(c) {
            let i = choose|i: int| 0 <= i < tail.len() && tail[i] == c;
            assert(s[k + 1 + i] == c);
        }
        lemma_split_keeps_out(tail, sep, c);
        let rest = text::split(tail, sep);
        assert forall|i: int| 0 <= i < text::split(s, sep).len() implies !(#[trigger] text::split(
            s,
            sep,
        )[i]).contains(c) by {
            if i > 0 {
                assert(text::split(s, sep)[i] == rest[i - 1]);
            }
        }
    }
}

/// The first segment of a host with a path is the host.
proof fn lemma_first_segment(host: Seq<char>, tail: Seq<char>)
    requires
        !host.contains('/'),
        tail.len() == 0 || tail[0] == '/',
    ensures
        text::split(host + tail, '/')[0] == host,
{
    let s = host + tail;
    let stops = seq!['/'];
    let k = host.len() as int;
    assert(stops[0] == '/');
    assert forall|j: int| 0 <= j < k implies !stops.contains(#[trigger] s[j]) by {
        assert(s[j] == host[j]);
    }
    if k < s.len() {
        assert(s[k] == tail[0]);
        assert(stops.contains(s[k]));
    }
    text::lemma_stop_index_is(s, stops, k);
    if k < s.len() {
        assert(s.take(k) =~= host);
    } else {
        assert(s =~= host);
    }
}

/// Taking slashes off the end leaves what stands before them.
proof fn lemma_trim_after_host(host: Seq<char>, tail: Seq<char>)
    requires
        host.len() == 0 || host.last() != '/',
        tail.len() == 0 || tail[0] == '/',
    ensures
        exists|rest: Seq<char>|
            text::trim_end_char(host + tail, '/') == #[trigger] (host + rest) && (rest.len() == 0
                || rest[0] == '/'),
    decreases tail.len(),
{
    let s = host + tail;
    if s.len() > 0 && s.last() == '/' {
        if tail.len() == 0 {
            assert(s =~= host);
        }
        assert(s.drop_last() =~= host + tail.drop_last());
        lemma_trim_after_host(host, tail.drop_last());
    } else {
        assert(s == host + tail);
    }
}

/// A pattern without `/` matches a host with any path as it matches the host.
pub proof fn law_host_pattern_matches_any_path(
    pattern: Seq<char>,
    host: Seq<char>,
    path: Seq<char>,
)
    requires
        !pattern_text(pattern).contains('/'),
        !host.contains('/'),
    ensures
        pattern_matches(pattern, host + seq!['/'] + path) == pattern_matches(pattern, host),
{
    let tail = seq!['/'] + path;
    let none = Seq::<char>::empty();
    assert(host + seq!['/'] + path =~= host + tail);
    assert(host + none =~= host);
    assert(host.len() > 0 ==> host.contains(host.last()));
    lemma_trim_after_host(host, tail);
    lemma_trim_after_host(host, none);
    let a = choose|rest: Seq<char>|
        text::trim_end_char(host + tail, '/') == #[trigger] (host + rest) && (rest.len() == 0
            || rest[0] == '/');
    let b = choose|rest: Seq<char>|
        text::trim_end_char(host + none, '/') == #[trigger] (host + rest) && (rest.len() == 0
            || rest[0] == '/');
    lemma_first_segment(host, a);
    lemma_first_segment(host, b);
    text::lemma_split_parts(pattern_text(pattern), '/');
    text::lemma_split_parts(host + a, '/');
    text::lemma_split_parts(host + b, '/');
}

/// What slashes are taken off leaves the rest and the slashes.
proof fn lemma_trim_slashes(s: Seq<char>)
    ensures
        text::trim_end_char(s, '/').len() <= s.len(),
        s.take(text::trim_end_char(s, '/').len() as int) == text::trim_end_char(s, '/'),
        text::trim_end_char(s, '/').len() == 0 || text::trim_end_char(s, '/').last() != '/',
        text::trim_end_char(s, '/').len() < s.len() ==> s[text::trim_end_char(s, '/').len() as int]
            == '/',
    decreases s.len(),
{
    if s.len() > 0 && s.last() == '/' {
        let init = s.drop_last();
        let t = text::trim_end_char(init, '/');
        lemma_trim_slashes(init);
        assert(s.take(t.len() as int) =~= init.take(t.len() as int));
    } else {
        assert(s.take(s.len() as int) =~= s);
    }
}

/// A pattern speaks of the start of a path: what it matches, it matches with any
/// further path below.
pub proof fn law_subpaths_match(pattern: Seq<char>, n: Seq<char>, more: Seq<char>)
    requires
        pattern_matches(pattern, n),
    ensures
        pattern_matches(pattern, n + seq!['/'] + more),
{
    let t = text::trim_end_char(n, '/');
    let len = t.len() as int;
    let tail = n.skip(len) + seq!['/'] + more;
    lemma_trim_slashes(n);
    assert(n + seq!['/'] + more =~= t + tail) by {
        assert(n =~= n.take(len) + n.skip(len));
    }
    assert(tail[0] == '/') by {
        if len < n.len() {
            assert(tail[0] == n[len]);
        }
    }
    lemma_trim_after_host(t, tail);
    let rest = choose|rest: Seq<char>|
        text::trim_end_char(t + tail, '/') == #[trigger] (t + rest) && (rest.len() == 0 || rest[0]
            == '/');
    let segments = text::split(t, '/');
    text::lemma_split_parts(t, '/');
    if rest.len() == 0 {
        assert(t + rest =~= t);
    } else {
        let below = rest.skip(1);
        assert(t + rest =~= t + seq!['/'] + below);
        text::lemma_split_concat(t, below, '/');
        let longer = text::split(t + rest, '/');
        let wanted = text::split(pattern_text(pattern), '/');
        text::lemma_split_parts(pattern_text(pattern), '/');
        assert forall|i: int| 0 <= i < segments.len() implies longer[i] == segments[i] by {}
        assert forall|i: int| 1 <= i < wanted.len() implies #[trigger] path_segment_matches(
            wanted[i],
            longer[i],
        ) by {
            assert(path_segment_matches(wanted[i], segments[i]));
        }
    }
}

/// A `.git` at the end does not reach over a `/`.
proof fn lemma_git_after_slash(named: Seq<char>, r: Seq<char>)
    ensures
        text::without_suffix(named + seq!['/'] + r, ".git"@) == named + seq!['/']
            + text::without_suffix(r, ".git"@),
{
    reveal_strlit(".git");
    let git = ".git"@;
    let s = named + seq!['/'] + r;
    let n = s.len() as int;
    if text::ends_in(s, git) {
        if r.len() < 4 {
            let i = 3 - r.len();
            assert(s.subrange(n - 4, n)[i] == s[n - 4 + i]);
            assert(s[n - 4 + i] == '/');
        }
        assert(r.subrange(r.len() - 4, r.len() as int) =~= s.subrange(n - 4, n));
        assert(s.take(n - 4) =~= named + seq!['/'] + r.take(r.len() - 4));
    } else if text::ends_in(r, git) {
        assert(s.subrange(n - 4, n) =~= r.subrange(r.len() - 4, r.len() as int));
    }
}

/// A name that holds none of the stops is passed over in the search for them.
proof fn lemma_before_stops(named: Seq<char>, q: Seq<char>, stops: Seq<char>)
    requires
        forall|i: int| 0 <= i < named.len() ==> !stops.contains(#[trigger] named[i]),
    ensures
        text::before_any(named + q, stops) == named + text::before_any(q, stops),
{
    let s = named + q;
    let n = named.len() as int;
    let k = text::stop_index(q, stops);
    text::lemma_stop_index(q, stops);
    assert forall|j: int| 0 <= j < n + k implies !stops.contains(#[trigger] s[j]) by {
        if j < n {
            assert(s[j] == named[j]);
        } else {
            assert(s[j] == q[j - n]);
        }
    }
    if k < q.len() {
        assert(s[n + k] == q[k]);
    }
    text::lemma_stop_index_is(s, stops, n + k);
    assert(s.take(n + k) =~= named + q.take(k));
}

/// The characters of a host, a port or a user: none that ends it.
pub open spec fn inner_name(s: Seq<char>) -> bool {
    forall|i: int|
        0 <= i < s.len() ==> (#[trigger] s[i]) != '/' && s[i] != '@' && s[i] != '?' && s[i] != '#'
}

/// A scheme: not empty, and none of the characters that end a name.
pub open spec fn scheme_name(s: Seq<char>) -> bool {
    s.len() > 0 && !text::is_white_space(s[0]) && inner_name(s)
}

/// What is left of a URL once query, fragment and scheme are gone.
proof fn lemma_after_scheme(scheme: Seq<char>, place: Seq<char>, path: Seq<char>)
    requires
        scheme_name(scheme),
        forall|i: int|
            0 <= i < place.len() ==> (#[trigger] place[i]) != '/' && place[i] != '?' && place[i]
                != '#',
    ensures
        without_scheme(
            text::before_any(
                text::trimmed(scheme + "://"@ + place + seq!['/'] + path),
                seq!['?', '#'],
            ),
        ) == place + seq!['/'] + text::before_any(text::trim_end(path), seq!['?', '#']),
{
    reveal_strlit("://");
    let colon = "://"@;
    let stops = seq!['?', '#'];
    let front = scheme + colon + place + seq!['/'];
    let url = front + path;
    let q = text::trim_end(path);
    let n = scheme.len() as int;
    assert(url[0] == scheme[0]);
    assert(front.last() == '/');
    lemma_trim_end_from(front, path);
    assert forall|i: int| 0 <= i < front.len() implies !stops.contains(#[trigger] front[i]) by {
        if i < n {
            assert(front[i] == scheme[i]);
        } else if i < n + 3 {
            assert(front[i] == colon[i - n]);
        } else if i < n + 3 + place.len() {
            assert(front[i] == place[i - n - 3]);
        }
    }
    lemma_before_stops(front, q, stops);
    let r = text::before_any(q, stops);
    let s = front + r;
    let slash = seq!['/'];
    assert(slash[0] == '/');
    assert forall|j: int| 0 <= j < n + 1 implies !slash.contains(#[trigger] s[j]) by {
        if j < n {
            assert(s[j] == scheme[j]);
        } else {
            assert(s[j] == ':');
        }
    }
    assert(s[n + 1] == '/');
    assert(slash.contains(s[n + 1]));
    text::lemma_stop_index_is(s, slash, n + 1);
    assert(s.subrange(n, n + 3) =~= colon);
    assert(s.skip(n + 3) =~= place + seq!['/'] + r);
}

/// A name without `@` before a path has no user in it.
proof fn lemma_no_user(named: Seq<char>, r: Seq<char>)
    requires
        inner_name(named),
    ensures
        without_user(named + seq!['/'] + r) == named + seq!['/'] + r,
{
    let s = named + seq!['/'] + r;
    let stops = seq!['@', '/'];
    let k = named.len() as int;
    assert forall|j: int| 0 <= j < k implies !stops.contains(#[trigger] s[j]) by {
        assert(s[j] == named[j]);
    }
    assert(stops[1] == '/');
    assert(s[k] == '/');
    assert(stops.contains(s[k]));
    text::lemma_stop_index_is(s, stops, k);
}

/// The body of a URL with a host and a path.
proof fn lemma_url_body(scheme: Seq<char>, named: Seq<char>, path: Seq<char>)
    requires
        scheme_name(scheme),
        inner_name(named),
    ensures
        url_body(scheme + "://"@ + named + seq!['/'] + path) == named + seq!['/']
            + text::without_suffix(
            text::before_any(text::trim_end(path), seq!['?', '#']),
            ".git"@,
        ),
{
    let r = text::before_any(text::trim_end(path), seq!['?', '#']);
    lemma_after_scheme(scheme, named, path);
    lemma_no_user(named, r);
    lemma_git_after_slash(named, r);
}

/// A URL is brought to its own host and path: an `@` or a `://` in the path stays in
/// the path.
pub proof fn law_host_and_path_are_the_urls_own(
    scheme: Seq<char>,
    host: Seq<char>,
    path: Seq<char>,
)
    requires
        scheme_name(scheme),
        inner_name(host),
        !host.contains(':'),
        path.len() > 0,
        !text::is_white_space(path.last()),
        !path.contains('?'),
        !path.contains('#'),
        !text::ends_in(path, ".git"@),
    ensures
        normalized(scheme + "://"@ + host + seq!['/'] + path) == text::lower(host) + seq!['/']
            + path,
{
    lemma_url_body(scheme, host, path);
    lemma_cut_nothing(host, ':');
    assert(!host.contains('/'));
    lemma_cut(host, '/', path);
    let stops = seq!['?', '#'];
    assert forall|i: int| 0 <= i < path.len() implies !stops.contains(#[trigger] path[i]) by {
        assert(path.contains(path[i]));
    }
    lemma_git_tail(path);
    assert((host + seq!['/'] + path).skip(host.len() as int + 1) =~= path);
}

/// The user that a URL names does not matter.
pub proof fn law_user_does_not_matter(
    scheme: Seq<char>,
    user: Seq<char>,
    host: Seq<char>,
    path: Seq<char>,
)
    requires
        scheme_name(scheme),
        inner_name(user),
        inner_name(host),
    ensures
        normalized(scheme + "://"@ + (user + seq!['@'] + host) + seq!['/'] + path) == normalized(
            scheme + "://"@ + host + seq!['/'] + path,
        ),
{
    let place = user + seq!['@'] + host;
    let r = text::before_any(text::trim_end(path), seq!['?', '#']);
    assert forall|i: int| 0 <= i < place.len() implies (#[trigger] place[i]) != '/' && place[i]
        != '?' && place[i] != '#' by {
        if i < user.len() {
            assert(place[i] == user[i]);
        } else if i > user.len() {
            assert(place[i] == host[i - user.len() - 1]);
        }
    }
    lemma_after_scheme(scheme, place, path);
    lemma_after_scheme(scheme, host, path);
    lemma_no_user(host, r);
    let s = place + seq!['/'] + r;
    let stops = seq!['@', '/'];
    let k = user.len() as int;
    assert(stops[0] == '@');
    assert forall|j: int| 0 <= j < k implies !stops.contains(#[trigger] s[j]) by {
        assert(s[j] == user[j]);
    }
    assert(s[k] == '@');
    assert(stops.contains(s[k]));
    text::lemma_stop_index_is(s, stops, k);
    assert(s.skip(k + 1) =~= host + seq!['/'] + r);
}

/// The port of a URL and the letter case of its host do not matter.
pub proof fn law_port_and_case_of_host_do_not_matter(
    scheme: Seq<char>,
    host: Seq<char>,
    port: Seq<char>,
    path: Seq<char>,
)
    requires
        scheme_name(scheme),
        inner_name(host),
        !host.contains(':'),
        inner_name(port),
    ensures
        normalized(scheme + "://"@ + (host + seq![':'] + port) + seq!['/'] + path) == normalized(
            scheme + "://"@ + text::lower(host) + seq!['/'] + path,
        ),
{
    let named = host + seq![':'] + port;
    let small = text::lower(host);
    assert forall|i: int| 0 <= i < named.len() implies (#[trigger] named[i]) != '/' && named[i]
        != '@' && named[i] != '?' && named[i] != '#' by {
        if i < host.len() {
            assert(named[i] == host[i]);
        } else if i > host.len() {
            assert(named[i] == port[i - host.len() - 1]);
        }
    }
    assert forall|i: int| 0 <= i < small.len() implies (#[trigger] small[i]) != '/' && small[i]
        != '@' && small[i] != '?' && small[i] != '#' by {
        assert(small[i] == text::ascii_lower(host[i]));
    }
    lemma_url_body(scheme, named, path);
    lemma_url_body(scheme, small, path);
    assert(!host.contains('/'));
    assert(!port.contains('/'));
    let r = text::before_any(text::trim_end(path), seq!['?', '#']);
    lemma_port_and_case(host, port, text::without_suffix(r, ".git"@));
}

/// The port and the letter case of a host do not matter for the parts of a body.
proof fn lemma_port_and_case(host: Seq<char>, port: Seq<char>, path: Seq<char>)
    requires
        !host.contains('/'),
        !host.contains(':'),
        !port.contains('/'),
    ensures
        ({
            let a = host + seq![':'] + port + seq!['/'] + path;
            let b = text::lower(host) + seq!['/'] + path;
            &&& body_host(a) == body_host(b)
            &&& body_path(a) == path
            &&& body_path(b) == path
            &&& text::stop_index(a, seq!['/']) == a.len() - 1 - path.len()
            &&& text::stop_index(b, seq!['/']) == b.len() - 1 - path.len()
        }),
{
    let named = host + seq![':'] + port;
    let small = text::lower(host);
    assert(!named.contains('/')) by {
        if named.contains('/') {
            let i = choose|i: int| 0 <= i < named.len() && named[i] == '/';
            if i < host.len() {
                assert(host[i] == '/');
            } else {
                assert(port[i - host.len() - 1] == '/');
            }
        }
    }
    assert forall|i: int| 0 <= i < small.len() implies small[i] != '/' && small[i] != ':' by {
        assert(small[i] == text::ascii_lower(host[i]));
        assert(host.contains(host[i]));
    }
    lemma_cut(named, '/', path);
    lemma_cut(small, '/', path);
    lemma_cut(host, ':', port);
    lemma_cut_nothing(small, ':');
    assert(text::lower(small) =~= small);
    assert((named + seq!['/'] + path).skip(named.len() as int + 1) =~= path);
    assert((small + seq!['/'] + path).skip(small.len() as int + 1) =~= path);
}

/// Cutting at a separator gives what was before it.
proof fn lemma_cut(before: Seq<char>, sep: char, after: Seq<char>)
    requires
        !before.contains(sep),
    ensures
        text::stop_index(before + seq![sep] + after, seq![sep]) == before.len(),
        text::before_any(before + seq![sep] + after, seq![sep]) == before,
{
    let s = before + seq![sep] + after;
    let stops = seq![sep];
    let k = before.len() as int;
    assert(stops[0] == sep);
    assert forall|j: int| 0 <= j < k implies !stops.contains(#[trigger] s[j]) by {
        assert(s[j] == before[j]);
    }
    assert(s[k] == sep);
    assert(stops.contains(s[k]));
    text::lemma_stop_index_is(s, stops, k);
    assert(s.take(k) =~= before);
}

/// Cutting at a separator that is not there gives all.
proof fn lemma_cut_nothing(s: Seq<char>, sep: char)
    requires
        !s.contains(sep),
    ensures
        text::before_any(s, seq![sep]) == s,
{
    let stops = seq![sep];
    let k = s.len() as int;
    assert forall|j: int| 0 <= j < k implies !stops.contains(#[trigger] s[j]) by {
        assert(s.contains(s[j]));
    }
    text::lemma_stop_index_is(s, stops, k);
    assert(s.take(k) =~= s);
}

/// Trimming the end stops at the last character that is not white space.
pub proof fn lemma_trim_end_from(s: Seq<char>, q: Seq<char>)
    requires
        s.len() > 0,
        !text::is_white_space(s.last()),
    ensures
        text::trim_end(s + q) == s + text::trim_end(q),
    decreases q.len(),
{
    let all = s + q;
    if q.len() == 0 {
        assert(all =~= s);
        assert(s + text::trim_end(q) =~= s);
    } else if text::is_white_space(q.last()) {
        assert(all.drop_last() =~= s + q.drop_last());
        lemma_trim_end_from(s, q.drop_last());
    }
}

/// Trimming the start stops at the first character that is not white space.
proof fn lemma_trim_start_until(u: Seq<char>, sep: char, q: Seq<char>)
    requires
        !text::is_white_space(sep),
    ensures
        text::trim_start(u + seq![sep] + q) == text::trim_start(u) + seq![sep] + q,
    decreases u.len(),
{
    let all = u + seq![sep] + q;
    if u.len() == 0 {
        assert(all[0] == sep);
        assert(text::trim_start(u) + seq![sep] + q =~= all);
    } else {
        assert(all[0] == u[0]);
        if text::is_white_space(u[0]) {
            assert(all.skip(1) =~= u.skip(1) + seq![sep] + q);
            lemma_trim_start_until(u.skip(1), sep, q);
        }
    }
}

/// A text is not longer for being trimmed, and keeps its last character if that is no white space.
proof fn lemma_trim_start_keeps_end(u: Seq<char>)
    requires
        u.len() == 0 || !text::is_white_space(u.last()),
    ensures
        text::trim_end(text::trim_start(u)) == text::trim_start(u),
    decreases u.len(),
{
    if u.len() > 0 && text::is_white_space(u[0]) {
        assert(u.len() > 1);
        assert(u.skip(1).last() == u.last());
        lemma_trim_start_keeps_end(u.skip(1));
    }
}

/// The query and the fragment of a URL do not matter.
pub proof fn law_query_and_fragment_do_not_matter(url: Seq<char>, mark: char, rest: Seq<char>)
    requires
        mark == '?' || mark == '#',
        url.len() == 0 || !text::is_white_space(url.last()),
    ensures
        normalized(url + seq![mark] + rest) == normalized(url),
{
    let s = text::trim_start(url);
    let marked = s + seq![mark];
    lemma_trim_start_until(url, mark, rest);
    lemma_trim_start_keeps_end(url);
    assert(marked.last() == mark);
    lemma_trim_end_from(marked, rest);
    lemma_before_mark(s, mark, text::trim_end(rest));
}

/// Cutting at the first mark does not see what comes after a mark.
proof fn lemma_before_mark(b: Seq<char>, mark: char, q: Seq<char>)
    requires
        mark == '?' || mark == '#',
    ensures
        text::before_any(b + seq![mark] + q, seq!['?', '#']) == text::before_any(
            b,
            seq!['?', '#'],
        ),
{
    let stops = seq!['?', '#'];
    let all = b + seq![mark] + q;
    let k = text::stop_index(b, stops);
    text::lemma_stop_index(b, stops);
    assert(stops[0] == '?' && stops[1] == '#');
    assert forall|j: int| 0 <= j < k implies !stops.contains(#[trigger] all[j]) by {
        assert(all[j] == b[j]);
    }
    if k < b.len() {
        assert(all[k] == b[k]);
    } else {
        assert(all[k] == mark);
    }
    assert(stops.contains(all[k]));
    text::lemma_stop_index_is(all, stops, k);
    assert(all.take(k) =~= b.take(k));
}

/// A `.git` behind a text without query and fragment is all that is taken off.
proof fn lemma_git_tail(b: Seq<char>)
    requires
        forall|i: int| 0 <= i < b.len() ==> !seq!['?', '#'].contains(#[trigger] b[i]),
    ensures
        text::before_any(b, seq!['?', '#']) == b,
        text::before_any(b + ".git"@, seq!['?', '#']) == b + ".git"@,
        text::without_suffix(text::before_any(b + ".git"@, seq!['?', '#']), ".git"@) == b,
{
    reveal_strlit(".git");
    let git = ".git"@;
    let stops = seq!['?', '#'];
    let none = Seq::<char>::empty();
    assert(text::before_any(none, stops) =~= none);
    assert(b + none =~= b);
    lemma_before_stops(b, none, stops);
    assert(git + none =~= git);
    lemma_before_stops(git, none, stops);
    lemma_before_stops(b, git, stops);
    let c = b + git;
    assert(c.subrange(b.len() as int, c.len() as int) =~= git);
    assert(c.take(b.len() as int) =~= b);
}

/// Taking off a scheme does not see a `.git` at the end.
proof fn lemma_scheme_before_git(s: Seq<char>)
    ensures
        without_scheme(s + ".git"@) == without_scheme(s) + ".git"@,
        without_scheme(s).len() <= s.len(),
        without_scheme(s) == s.skip(s.len() - without_scheme(s).len()),
{
    reveal_strlit("://");
    reveal_strlit(".git");
    let git = ".git"@;
    let colon = "://"@;
    let slash = seq!['/'];
    let all = s + git;
    let k = text::stop_index(s, slash);
    text::lemma_stop_index(s, slash);
    assert(slash[0] == '/');
    assert forall|j: int| 0 <= j < k implies !slash.contains(#[trigger] all[j]) by {
        assert(all[j] == s[j]);
    }
    assert(s.skip(0) =~= s);
    if k < s.len() {
        assert(all[k] == s[k]);
        text::lemma_stop_index_is(all, slash, k);
        if text::occurs_at(s, colon, k - 1) {
            assert(all.subrange(k - 1, k + 2) =~= s.subrange(k - 1, k + 2));
            assert(all.skip(k + 2) =~= s.skip(k + 2) + git);
        } else if text::occurs_at(all, colon, k - 1) {
            assert(all.subrange(k - 1, k + 2)[2] == all[k + 1]);
            assert(k + 1 < s.len());
            assert(s.subrange(k - 1, k + 2) =~= all.subrange(k - 1, k + 2));
        }
    } else {
        assert forall|j: int| 0 <= j < all.len() implies !slash.contains(#[trigger] all[j]) by {
            if j >= k {
                assert(all[j] == git[j - k]);
            }
        }
        text::lemma_stop_index_is(all, slash, all.len() as int);
    }
}

/// Taking off a user does not see a `.git` at the end.
proof fn lemma_user_before_git(s: Seq<char>)
    ensures
        without_user(s + ".git"@) == without_user(s) + ".git"@,
        without_user(s).len() <= s.len(),
        without_user(s) == s.skip(s.len() - without_user(s).len()),
{
    reveal_strlit(".git");
    let git = ".git"@;
    let stops = seq!['@', '/'];
    let all = s + git;
    let k = text::stop_index(s, stops);
    text::lemma_stop_index(s, stops);
    assert forall|j: int| 0 <= j < k implies !stops.contains(#[trigger] all[j]) by {
        assert(all[j] == s[j]);
    }
    assert(s.skip(0) =~= s);
    if k < s.len() {
        assert(all[k] == s[k]);
        text::lemma_stop_index_is(all, stops, k);
        assert(all.skip(k + 1) =~= s.skip(k + 1) + git);
    } else {
        assert forall|j: int| 0 <= j < all.len() implies !stops.contains(#[trigger] all[j]) by {
            if j >= k {
                assert(all[j] == git[j - k]);
            }
        }
        text::lemma_stop_index_is(all, stops, all.len() as int);
    }
}

/// Trimming a URL does not see a `.git` at its end.
proof fn lemma_trimmed_before_git(url: Seq<char>)
    requires
        url.len() > 0,
        !text::is_white_space(url.last()),
    ensures
        text::trimmed(url) == text::trim_start(url),
        text::trimmed(url + ".git"@) == text::trim_start(url) + ".git"@,
{
    reveal_strlit(".git");
    let git = ".git"@;
    let it = seq!['g', 'i', 't'];
    let all = url + git;
    assert(all =~= url + seq!['.'] + it);
    let s = text::trim_start(url);
    lemma_trim_start_until(url, '.', it);
    lemma_trim_start_keeps_end(url);
    assert(s + seq!['.'] + it =~= s + git);
    assert((s + git).last() == 't');
}

/// A `.git` is taken off the end of what is left of a URL once scheme and user are
/// gone, and nothing is where there is none.
proof fn lemma_git_taken_off(s: Seq<char>)
    requires
        !text::ends_in(s, ".git"@),
    ensures
        text::without_suffix(without_user(without_scheme(s + ".git"@)), ".git"@)
            == text::without_suffix(without_user(without_scheme(s)), ".git"@),
{
    reveal_strlit(".git");
    let git = ".git"@;
    let a = without_scheme(s);
    lemma_scheme_before_git(s);
    let b = without_user(a);
    lemma_user_before_git(a);
    assert(b =~= s.skip(s.len() - b.len()));
    let c = b + git;
    assert(c.subrange(b.len() as int, c.len() as int) =~= git);
    assert(c.take(b.len() as int) =~= b);
    if text::ends_in(b, git) {
        assert(s.subrange(s.len() - 4, s.len() as int) =~= b.subrange(
            b.len() - 4,
            b.len() as int,
        ));
    }
}

/// A trailing `.git` does not matter.
#[verifier::spinoff_prover]
#[verifier::rlimit(30)]
pub proof fn law_git_suffix_does_not_matter(url: Seq<char>)
    requires
        url.len() > 0,
        !text::is_white_space(url.last()),
        !url.contains('?'),
        !url.contains('#'),
        !text::ends_in(url, ".git"@),
    ensures
        normalized(url + ".git"@) == normalized(url),
{
    reveal_strlit(".git");
    let git = ".git"@;
    let s = text::trim_start(url);
    lemma_trimmed_before_git(url);
    lemma_suffix_trim_start(url);
    assert forall|i: int| 0 <= i < s.len() implies !seq!['?', '#'].contains(#[trigger] s[i]) by {
        assert(s[i] == url[url.len() - s.len() + i]);
        assert(url.contains(s[i]));
    }
    lemma_git_tail(s);
    if text::ends_in(s, git) {
        assert(url.subrange(url.len() - 4, url.len() as int) =~= s.subrange(
            s.len() - 4,
            s.len() as int,
        ));
    }
    lemma_git_taken_off(s);
    assert(url_body(url + git) == url_body(url));
}

/// What is left of a text once its start was trimmed is its end.
proof fn lemma_suffix_trim_start(s: Seq<char>)
    ensures
        text::trim_start(s).len() <= s.len(),
        text::trim_start(s) == s.skip(s.len() - text::trim_start(s).len()),
    decreases s.len(),
{
    if s.len() > 0 && text::is_white_space(s[0]) {
        let rest = s.skip(1);
        let t = text::trim_start(rest);
        lemma_suffix_trim_start(rest);
        assert(rest.skip(rest.len() - t.len()) =~= s.skip(s.len() - t.len()));
    } else {
        assert(s.skip(0) =~= s);
    }
}

} // verus!
