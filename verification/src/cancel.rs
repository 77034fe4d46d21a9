//! Cooperative cancellation.
//!
//! A [`CancelToken`] points to a flag of its own and, where it was made from
//! another token, to the flags of that token and of all that it came from.
//! Cancelling sets the token's own flag only: a cancel reaches the token's
//! children, their children and so on, but neither its parent nor its siblings.
//! The flags themselves are held by [`CancelFlags`], which the tokens of one
//! family share.
//!
//! Each token also has a notifier. Its cancel hands that notifier out, for the caller
//! to notify its waiters. A task that waits for cancellation takes a [`CancelWatch`]
//! when it begins and then asks [`CancelToken::cancelled`] which notifiers to wait
//! on. The watch tells the cancels that came since: a reset right after a cancel
//! does not take the cancel from the tasks that were waiting for it, while waits
//! that begin after the reset start clean.

use std::sync::Arc;
use tokio::sync::Notify;
use vstd::prelude::*;

verus! {

/// The flag of a token, and how often the token was cancelled.
#[derive(Debug, Clone, Copy)]
pub struct CancelFlag {
    pub set: bool,
    /// Starts again at zero once it has reached the largest `u64`.
    pub cancels: u64,
}

/// The flags of a family of tokens, each with the notifier of its token.
#[derive(Debug)]
pub struct CancelFlags {
    members: Vec<(CancelFlag, Arc<Notify>)>,
}

/// A handle on a flag of [`CancelFlags`] and its notifier, and on those of the
/// tokens that it came from.
#[derive(Debug)]
pub struct CancelToken {
    /// The position of the token's own flag, then of its parent's, of its parent's
    /// parent's and so on.
    line: Vec<usize>,
}

/// How often a token and those that it came from were cancelled when a wait began.
#[derive(Debug)]
pub struct CancelWatch {
    cancels: Vec<u64>,
}

/// `tokio`'s notifier of waiting tasks. Nothing is said of what it holds.
#[verifier::external_type_specification]
#[verifier::external_body]
pub struct ExNotify(Notify);

/// `Notify::new` makes a notifier that nobody waits on yet. Nothing is said of it.
pub assume_specification[ tokio::sync::Notify::new ]() -> Notify;

/// What a task that waits for a token's cancellation does next.
#[derive(Debug)]
pub enum CancelWait {
    /// Cancellation was requested: the wait is over.
    Done,
    /// Wait for the first of these notifiers, then ask again.
    On(Vec<Arc<Notify>>),
}

// ---------------------------------------------------------------------------
// Flags, tokens and watches

/// A flag that was never set.
pub open spec fn clear_flag() -> CancelFlag {
    CancelFlag { set: false, cancels: 0 }
}

/// A flag once its token was cancelled.
pub open spec fn set_flag(flag: CancelFlag) -> CancelFlag {
    CancelFlag {
        set: true,
        cancels: if flag.cancels == u64::MAX {
            0
        } else {
            (flag.cancels + 1) as u64
        },
    }
}

/// A flag once its token was reset.
pub open spec fn reset_flag(flag: CancelFlag) -> CancelFlag {
    CancelFlag { set: false, cancels: flag.cancels }
}

impl View for CancelFlags {
    type V = Seq<CancelFlag>;

    closed spec fn view(&self) -> Seq<CancelFlag> {
        self.members@.map_values(|m: (CancelFlag, Arc<Notify>)| m.0)
    }
}

impl View for CancelWatch {
    type V = Seq<u64>;

    closed spec fn view(&self) -> Seq<u64> {
        self.cancels@
    }
}

/// Some flag at one of these positions is set.
pub open spec fn any_set(flags: Seq<CancelFlag>, line: Seq<int>) -> bool {
    exists|i: int| 0 <= i < line.len() && flags[#[trigger] line[i]].set
}

/// How often the tokens with flags at these positions were cancelled.
pub open spec fn cancels_of(flags: Seq<CancelFlag>, line: Seq<int>) -> Seq<u64> {
    line.map_values(|f: int| flags[f].cancels)
}

/// The notifiers that shared handles point to.
pub open spec fn pointed_to(list: Seq<Arc<Notify>>) -> Seq<Notify> {
    list.map_values(|n: Arc<Notify>| *n)
}

/// `after` is `before` and one notifier more.
pub open spec fn one_more(before: Seq<Notify>, after: Seq<Notify>) -> bool {
    after.len() == before.len() + 1 && after.drop_last() == before
}

impl CancelToken {
    /// The positions of the token's own flag and of those that it came from, the
    /// nearest first.
    pub closed spec fn line(self) -> Seq<int> {
        self.line@.map_values(|f: usize| f as int)
    }

    /// What a task that waits for the token waits on: of the family's notifiers, that
    /// of the token and those of the tokens that it came from, the nearest first.
    pub open spec fn waits_on(self, notifiers: Seq<Notify>) -> Seq<Notify> {
        self.line().map_values(|f: int| notifiers[f])
    }

    /// The position of the token's own flag.
    pub open spec fn flag(self) -> int {
        self.line()[0]
    }

    /// The token is a child of `parent`.
    pub open spec fn child_of(self, parent: CancelToken) -> bool {
        self.line() == seq![self.flag()] + parent.line()
    }

    /// The token has no parent.
    pub open spec fn is_root(self) -> bool {
        self.line().len() == 1
    }

    /// The token is `other`, or a copy of it.
    pub open spec fn same_as(self, other: CancelToken) -> bool {
        self.line() == other.line()
    }

    /// The token belongs to the family with these flags, and came after its parent,
    /// which came after its own.
    pub open spec fn among(self, flags: Seq<CancelFlag>) -> bool {
        &&& self.line().len() > 0
        &&& forall|i: int|
            0 <= i < self.line().len() ==> 0 <= (#[trigger] self.line()[i]) < flags.len()
        &&& forall|i: int, j: int|
            0 <= i < j < self.line().len() ==> #[trigger] self.line()[i] > #[trigger] self.line()[j]
    }

    /// Cancellation was requested of the token or of one that it came from.
    pub open spec fn requested(self, flags: Seq<CancelFlag>) -> bool {
        any_set(flags, self.line())
    }

    /// `watch` is what a wait for the token that begins now takes.
    pub open spec fn watched(self, flags: Seq<CancelFlag>, watch: CancelWatch) -> bool {
        watch@ == cancels_of(flags, self.line())
    }

    /// A wait that began with `watch` is over: cancellation is requested, or was
    /// since the wait began.
    pub open spec fn over(self, flags: Seq<CancelFlag>, watch: CancelWatch) -> bool {
        self.requested(flags) || !self.watched(flags, watch)
    }

    /// `other` is the token, a copy of it, or one that it came from.
    pub open spec fn hears(self, other: CancelToken) -> bool {
        self.line().contains(other.flag())
    }
}

impl CancelFlags {
    /// A family without tokens.
    pub fn new() -> (none: CancelFlags)
        ensures
            none@ == Seq::<CancelFlag>::empty(),
            none.notifiers() == Seq::<Notify>::empty(),
    {
        CancelFlags { members: Vec::new() }
    }

    /// The notifiers of the family's tokens, by the positions of their flags.
    pub closed spec fn notifiers(self) -> Seq<Notify> {
        self.members@.map_values(|m: (CancelFlag, Arc<Notify>)| *m.1)
    }

    /// Adds a flag that was never set, with a notifier of its own.
    fn grow(&mut self) -> (at: usize)
        ensures
            final(self)@ == old(self)@.push(clear_flag()),
            one_more(old(self).notifiers(), final(self).notifiers()),
            at == old(self)@.len(),
    {
        let at: usize = self.members.len();
        self.members.push((CancelFlag { set: false, cancels: 0 }, Arc::new(Notify::new())));
        assert(self@ =~= old(self)@.push(clear_flag()));
        assert(self.notifiers().drop_last() =~= old(self).notifiers());
        at
    }

    /// Replaces the flag at a position.
    fn put(&mut self, at: usize, flag: CancelFlag)
        requires
            at < old(self)@.len(),
        ensures
            final(self)@ == old(self)@.update(at as int, flag),
            final(self).notifiers() == old(self).notifiers(),
    {
        let notifier = self.members[at].1.clone();
        self.members.set(at, (flag, notifier));
        assert(self@ =~= old(self)@.update(at as int, flag));
        assert(self.notifiers() =~= old(self).notifiers());
    }
}

impl Clone for CancelToken {
    /// Another handle on the same flags and notifiers.
    fn clone(&self) -> (copy: Self)
        ensures
            copy.same_as(*self),
    {
        let mut line: Vec<usize> = Vec::new();
        for i in 0..self.line.len()
            invariant
                line@ == self.line@.take(i as int),
        {
            line.push(self.line[i]);
            assert(line@ =~= self.line@.take(i + 1));
        }
        assert(line@ =~= self.line@);
        CancelToken { line }
    }
}

impl CancelToken {
    /// A token of its own, not cancelled.
    pub fn new(flags: &mut CancelFlags) -> (token: CancelToken)
        ensures
            final(flags)@ == old(flags)@.push(clear_flag()),
            token.flag() == old(flags)@.len(),
            token.is_root(),
            one_more(old(flags).notifiers(), final(flags).notifiers()),
            forall|now: Seq<CancelFlag>| #[trigger]
                token.requested(now) == now[token.flag()].set,
    {
        let mut line: Vec<usize> = Vec::new();
        line.push(flags.grow());
        let token = CancelToken { line };
        proof {
            assert forall|now: Seq<CancelFlag>| #[trigger] token.requested(now)
                == now[token.flag()].set by {
                law_root_sees_its_own_flag(now, token);
            }
        }
        token
    }

    /// A token, not cancelled itself, that also sees this token's cancellation and
    /// whatever this token sees. Its own cancellation is not seen by this token.
    pub fn child(&self, flags: &mut CancelFlags) -> (token: CancelToken)
        requires
            self.among(old(flags)@),
        ensures
            final(flags)@ == old(flags)@.push(clear_flag()),
            token.flag() == old(flags)@.len(),
            token.child_of(*self),
            one_more(old(flags).notifiers(), final(flags).notifiers()),
            forall|now: Seq<CancelFlag>| #[trigger]
                token.requested(now) == (now[token.flag()].set || self.requested(now)),
    {
        let mut line: Vec<usize> = Vec::new();
        line.push(flags.grow());
        let ghost first = line@[0];
        for i in 0..self.line.len()
            invariant
                line@ == seq![first] + self.line@.take(i as int),
        {
            line.push(self.line[i]);
            assert(line@ =~= seq![first] + self.line@.take(i + 1));
        }
        assert(line@ =~= seq![first] + self.line@);
        let token = CancelToken { line };
        assert(token.line() =~= seq![token.flag()] + self.line());
        proof {
            assert forall|now: Seq<CancelFlag>| #[trigger] token.requested(now) == (
            now[token.flag()].set || self.requested(now)) by {
                law_child_sees_what_its_parent_sees(now, *self, token);
            }
        }
        token
    }

    /// Whether cancellation was requested of the token or of one that it came from.
    pub fn is_cancelled(&self, flags: &CancelFlags) -> (yes: bool)
        requires
            self.among(flags@),
        ensures
            yes == self.requested(flags@),
    {
        for i in 0..self.line.len()
            invariant
                self.among(flags@),
                forall|j: int| 0 <= j < i ==> !flags@[#[trigger] self.line()[j]].set,
        {
            assert(self.line()[i as int] == self.line@[i as int]);
            if flags.members[self.line[i]].0.set {
                assert(flags@[self.line()[i as int]].set);
                return true;
            }
        }
        false
    }

    /// Requests cancellation of this token: sets its own flag and no other. Every
    /// task that waits on the notifier that comes back is to be woken, with
    /// `Notify::notify_waiters`.
    #[must_use]
    pub fn cancel(&self, flags: &mut CancelFlags) -> (wake: Arc<Notify>)
        requires
            self.among(old(flags)@),
        ensures
            final(flags)@ == old(flags)@.update(
                self.flag(),
                set_flag(old(flags)@[self.flag()]),
            ),
            final(flags).notifiers() == old(flags).notifiers(),
            *wake == old(flags).notifiers()[self.flag()],
    {
        assert(self.line()[0] == self.line@[0]);
        let own: usize = self.line[0];
        let before: u64 = flags.members[own].0.cancels;
        let cancels: u64 = if before == u64::MAX {
            0
        } else {
            before + 1
        };
        let wake = flags.members[own].1.clone();
        flags.put(own, CancelFlag { set: true, cancels });
        wake
    }

    /// Clears the token's own flag for the next operation. A parent that was
    /// cancelled stays so.
    pub fn reset(&self, flags: &mut CancelFlags)
        requires
            self.among(old(flags)@),
        ensures
            final(flags)@ == old(flags)@.update(
                self.flag(),
                reset_flag(old(flags)@[self.flag()]),
            ),
            final(flags).notifiers() == old(flags).notifiers(),
    {
        assert(self.line()[0] == self.line@[0]);
        let own: usize = self.line[0];
        let cancels: u64 = flags.members[own].0.cancels;
        flags.put(own, CancelFlag { set: false, cancels });
    }

    /// Begins a wait for cancellation.
    pub fn watch(&self, flags: &CancelFlags) -> (watch: CancelWatch)
        requires
            self.among(flags@),
        ensures
            self.watched(flags@, watch),
    {
        let mut cancels: Vec<u64> = Vec::new();
        for i in 0..self.line.len()
            invariant
                self.among(flags@),
                cancels@.len() == i,
                forall|j: int| 0 <= j < i ==> cancels@[j] == flags@[#[trigger] self.line()[j]].cancels,
        {
            assert(self.line()[i as int] == self.line@[i as int]);
            cancels.push(flags.members[self.line[i]].0.cancels);
        }
        assert(cancels@ =~= cancels_of(flags@, self.line()));
        CancelWatch { cancels }
    }

    /// The step of a task that waits for cancellation, to be taken once the wait
    /// began with `watch`, and again after each notification: the wait is over as
    /// soon as cancellation was requested, and goes on for the token and for those
    /// that it came from until then.
    pub fn cancelled(&self, flags: &CancelFlags, watch: &CancelWatch) -> (step: CancelWait)
        requires
            self.among(flags@),
        ensures
            match step {
                CancelWait::Done => self.over(flags@, *watch),
                CancelWait::On(list) => {
                    &&& !self.over(flags@, *watch)
                    &&& pointed_to(list@) == self.waits_on(flags.notifiers())
                },
            },
    {
        let now = self.watch(flags);
        if self.is_cancelled(flags) || now.cancels.len() != watch.cancels.len() {
            return CancelWait::Done;
        }
        for i in 0..now.cancels.len()
            invariant
                now@.len() == watch@.len(),
                now@ == cancels_of(flags@, self.line()),
                forall|j: int| 0 <= j < i ==> now@[j] == watch@[j],
        {
            if now.cancels[i] != watch.cancels[i] {
                assert(now@[i as int] != watch@[i as int]);
                return CancelWait::Done;
            }
        }
        assert(now@ =~= watch@);
        let mut list: Vec<Arc<Notify>> = Vec::new();
        let ghost notifiers = flags.notifiers();
        for i in 0..self.line.len()
            invariant
                self.among(flags@),
                notifiers == flags.notifiers(),
                list@.len() == i,
                forall|j: int| 0 <= j < i ==> *(#[trigger] list@[j]) == notifiers[self.line()[j]],
        {
            assert(self.line()[i as int] == self.line@[i as int]);
            list.push(flags.members[self.line[i]].1.clone());
        }
        assert(pointed_to(list@) =~= self.waits_on(notifiers));
        CancelWait::On(list)
    }
}

// ---------------------------------------------------------------------------
// Laws

/// Each flag of a family has a notifier.
pub proof fn law_each_flag_has_a_notifier(family: CancelFlags)
    ensures
        family.notifiers().len() == family@.len(),
{
}

/// A child is cancelled where its own flag is set or its parent is cancelled, by
/// itself or by one that it came from in turn.
pub proof fn law_child_sees_what_its_parent_sees(
    flags: Seq<CancelFlag>,
    parent: CancelToken,
    child: CancelToken,
)
    requires
        child.child_of(parent),
    ensures
        child.requested(flags) == (flags[child.flag()].set || parent.requested(flags)),
{
    let line = child.line();
    if parent.requested(flags) {
        let i = choose|i: int| 0 <= i < parent.line().len() && flags[#[trigger] parent.line()[i]].set;
        assert(line[i + 1] == parent.line()[i]);
    }
    if child.requested(flags) && !flags[child.flag()].set {
        let i = choose|i: int| 0 <= i < line.len() && flags[#[trigger] line[i]].set;
        assert(parent.line()[i - 1] == line[i]);
    }
    assert(line[0] == child.flag());
}

/// A token without a parent is cancelled where its own flag is set.
pub proof fn law_root_sees_its_own_flag(flags: Seq<CancelFlag>, token: CancelToken)
    requires
        token.is_root(),
    ensures
        token.requested(flags) == flags[token.flag()].set,
{
}

/// Making a token changes nothing for the tokens that are there: they belong to
/// the family as before, and are cancelled or not as before.
pub proof fn law_new_tokens_disturb_nobody(flags: Seq<CancelFlag>, token: CancelToken)
    requires
        token.among(flags),
    ensures
        token.among(flags.push(clear_flag())),
        token.requested(flags.push(clear_flag())) == token.requested(flags),
{
    let more = flags.push(clear_flag());
    assert forall|i: int| 0 <= i < token.line().len() implies more[#[trigger] token.line()[i]]
        == flags[token.line()[i]] by {}
}

/// A new token belongs to the family, and a child starts out cancelled exactly
/// where its parent is.
pub proof fn law_child_starts_with_its_parent(
    flags: Seq<CancelFlag>,
    parent: CancelToken,
    child: CancelToken,
)
    requires
        parent.among(flags),
        child.flag() == flags.len(),
        child.child_of(parent),
    ensures
        child.among(flags.push(clear_flag())),
        child.requested(flags.push(clear_flag())) == parent.requested(flags),
{
    let line = child.line();
    let more = flags.push(clear_flag());
    law_new_tokens_disturb_nobody(flags, parent);
    law_child_sees_what_its_parent_sees(more, parent, child);
    assert(line[0] == child.flag());
    assert forall|i: int| 0 <= i < line.len() implies 0 <= (#[trigger] line[i]) < more.len() by {
        if i > 0 {
            assert(line[i] == parent.line()[i - 1]);
        }
    }
    assert forall|i: int, j: int| 0 <= i < j < line.len() implies #[trigger] line[i]
        > #[trigger] line[j] by {
        assert(line[j] == parent.line()[j - 1]);
        if i > 0 {
            assert(line[i] == parent.line()[i - 1]);
        }
    }
}

/// Once a token was cancelled, it is cancelled, and so is each that came from it,
/// over any number of generations.
pub proof fn law_cancel_reaches_all_below(
    flags: Seq<CancelFlag>,
    token: CancelToken,
    below: CancelToken,
)
    requires
        token.among(flags),
        below.among(flags),
        below.hears(token),
    ensures
        below.requested(flags.update(token.flag(), set_flag(flags[token.flag()]))),
{
    let after = flags.update(token.flag(), set_flag(flags[token.flag()]));
    let i = choose|i: int| 0 <= i < below.line().len() && below.line()[i] == token.flag();
    assert(token.flag() == token.line()[0]);
    assert(after[below.line()[i]].set);
}

/// A token hears itself, its parent, and whatever its parent hears.
pub proof fn law_who_is_heard(child: CancelToken, parent: CancelToken, other: CancelToken)
    requires
        child.child_of(parent),
    ensures
        child.hears(child),
        parent.line().len() > 0 ==> child.hears(parent),
        parent.hears(other) ==> child.hears(other),
{
    let line = child.line();
    assert(line[0] == child.flag());
    assert forall|i: int| 0 <= i < parent.line().len() implies line.contains(
        #[trigger] parent.line()[i],
    ) by {
        assert(line[i + 1] == parent.line()[i]);
    }
}

/// Cancelling or resetting a token changes nothing for any token that neither is
/// it, or a copy of it, nor came from it: its parent and its siblings stay as they are.
pub proof fn law_others_are_not_affected(
    flags: Seq<CancelFlag>,
    token: CancelToken,
    other: CancelToken,
)
    requires
        token.among(flags),
        other.among(flags),
        !other.hears(token),
    ensures
        other.requested(flags.update(token.flag(), set_flag(flags[token.flag()])))
            == other.requested(flags),
        other.requested(flags.update(token.flag(), reset_flag(flags[token.flag()])))
            == other.requested(flags),
{
    assert(token.flag() == token.line()[0]);
    lemma_update_elsewhere(flags, token.flag(), set_flag(flags[token.flag()]), other.line());
    lemma_update_elsewhere(flags, token.flag(), reset_flag(flags[token.flag()]), other.line());
}

/// A flag that is not in the line plays no part in it.
proof fn lemma_update_elsewhere(
    flags: Seq<CancelFlag>,
    at: int,
    value: CancelFlag,
    line: Seq<int>,
)
    requires
        0 <= at < flags.len(),
        !line.contains(at),
        forall|i: int| 0 <= i < line.len() ==> 0 <= (#[trigger] line[i]) < flags.len(),
    ensures
        any_set(flags.update(at, value), line) == any_set(flags, line),
        cancels_of(flags.update(at, value), line) == cancels_of(flags, line),
{
    let after = flags.update(at, value);
    assert forall|i: int| 0 <= i < line.len() implies after[#[trigger] line[i]] == flags[line[i]] by {
        assert(line.contains(line[i]));
    }
    assert(cancels_of(after, line) =~= cancels_of(flags, line));
}

/// Cancelling twice leaves every token cancelled or not as cancelling once does.
pub proof fn law_cancel_is_idempotent(
    flags: Seq<CancelFlag>,
    token: CancelToken,
    other: CancelToken,
)
    requires
        token.among(flags),
        other.among(flags),
    ensures
        ({
            let once = flags.update(token.flag(), set_flag(flags[token.flag()]));
            let twice = once.update(token.flag(), set_flag(once[token.flag()]));
            other.requested(twice) == other.requested(once)
        }),
{
    let once = flags.update(token.flag(), set_flag(flags[token.flag()]));
    let twice = once.update(token.flag(), set_flag(once[token.flag()]));
    assert(token.flag() == token.line()[0]);
    assert forall|i: int| 0 <= i < other.line().len() implies twice[#[trigger] other.line()[i]].set
        == once[other.line()[i]].set by {}
}

/// After a reset a child is cancelled only where its parent still is.
pub proof fn law_reset_clears_the_own_flag(
    flags: Seq<CancelFlag>,
    parent: CancelToken,
    child: CancelToken,
)
    requires
        child.among(flags),
        child.child_of(parent),
    ensures
        child.requested(flags.update(child.flag(), reset_flag(flags[child.flag()])))
            == parent.requested(flags),
{
    let after = flags.update(child.flag(), reset_flag(flags[child.flag()]));
    let line = child.line();
    assert(child.flag() == line[0]);
    law_child_sees_what_its_parent_sees(after, parent, child);
    assert forall|i: int| 0 <= i < parent.line().len() implies 0 <= (#[trigger] parent.line()[i])
        < flags.len() && parent.line()[i] != child.flag() by {
        assert(line[i + 1] == parent.line()[i]);
    }
    lemma_update_elsewhere(flags, child.flag(), reset_flag(flags[child.flag()]), parent.line());
}

/// A wait is over at once exactly where cancellation was requested before it began.
pub proof fn law_new_waits_start_clean(
    flags: Seq<CancelFlag>,
    token: CancelToken,
    watch: CancelWatch,
)
    requires
        token.among(flags),
        token.watched(flags, watch),
    ensures
        token.over(flags, watch) == token.requested(flags),
{
}

/// A task that waits for a token waits on the notifier that a cancel of the token,
/// or of one that it came from, hands out to be notified.
pub proof fn law_cancel_wakes_the_waits_on_it(
    flags: Seq<CancelFlag>,
    notifiers: Seq<Notify>,
    token: CancelToken,
    waiting: CancelToken,
)
    requires
        waiting.among(flags),
        waiting.hears(token),
        notifiers.len() == flags.len(),
    ensures
        waiting.waits_on(notifiers).contains(notifiers[token.flag()]),
{
    let i = choose|i: int| 0 <= i < waiting.line().len() && waiting.line()[i] == token.flag();
    assert(waiting.waits_on(notifiers)[i] == notifiers[token.flag()]);
}

/// Growing the family leaves every token the notifiers that it waits on.
pub proof fn law_notifiers_stay(
    flags: Seq<CancelFlag>,
    before: Seq<Notify>,
    after: Seq<Notify>,
    token: CancelToken,
)
    requires
        token.among(flags),
        before.len() == flags.len(),
        one_more(before, after),
    ensures
        token.waits_on(after) == token.waits_on(before),
{
    assert forall|i: int| 0 <= i < token.line().len() implies after[#[trigger] token.line()[i]]
        == before[token.line()[i]] by {
        assert(after.drop_last()[token.line()[i]] == after[token.line()[i]]);
    }
    assert(token.waits_on(after) =~= token.waits_on(before));
}

/// A cancel ends the wait of every task that waits on its notifier.
pub proof fn law_cancel_ends_the_waits_on_it(
    flags: Seq<CancelFlag>,
    token: CancelToken,
    waiting: CancelToken,
    watch: CancelWatch,
)
    requires
        token.among(flags),
        waiting.among(flags),
        waiting.hears(token),
    ensures
        waiting.over(flags.update(token.flag(), set_flag(flags[token.flag()])), watch),
{
    law_cancel_reaches_all_below(flags, token, waiting);
}

/// A reset does not take a cancel from the tasks that were waiting for it: their
/// waits are over, whatever the flag is by the time they wake.
pub proof fn law_reset_does_not_hold_up_a_wait(
    flags: Seq<CancelFlag>,
    token: CancelToken,
    waiting: CancelToken,
    watch: CancelWatch,
)
    requires
        token.among(flags),
        waiting.among(flags),
        waiting.hears(token),
        waiting.watched(flags, watch),
    ensures
        ({
            let cancelled = flags.update(token.flag(), set_flag(flags[token.flag()]));
            let after = cancelled.update(token.flag(), reset_flag(cancelled[token.flag()]));
            waiting.over(after, watch)
        }),
{
    let cancelled = flags.update(token.flag(), set_flag(flags[token.flag()]));
    let after = cancelled.update(token.flag(), reset_flag(cancelled[token.flag()]));
    let line = waiting.line();
    let i = choose|i: int| 0 <= i < line.len() && line[i] == token.flag();
    assert(token.flag() == token.line()[0]);
    assert(cancels_of(after, line)[i] != cancels_of(flags, line)[i]);
}

/// No other cancel ends a wait: a task that wakes for any other reason waits again.
pub proof fn law_no_other_cancel_ends_a_wait(
    flags: Seq<CancelFlag>,
    token: CancelToken,
    waiting: CancelToken,
    watch: CancelWatch,
)
    requires
        token.among(flags),
        waiting.among(flags),
        !waiting.hears(token),
        !waiting.over(flags, watch),
    ensures
        !waiting.over(flags.update(token.flag(), set_flag(flags[token.flag()])), watch),
{
    assert(token.flag() == token.line()[0]);
    lemma_update_elsewhere(flags, token.flag(), set_flag(flags[token.flag()]), waiting.line());
}

// ---------------------------------------------------------------------------
// Any sequence of calls

/// A call that changes the flags of a family. A token is named by the position of
/// its flag, which is that of its copies too.
pub enum Call {
    /// [`CancelToken::new`] or [`CancelToken::child`].
    Make,
    /// [`CancelToken::cancel`] on the token or a copy of it.
    Cancel(int),
    /// [`CancelToken::reset`] on the token or a copy of it.
    Reset(int),
}

/// The flags after one call.
pub open spec fn after_call(flags: Seq<CancelFlag>, call: Call) -> Seq<CancelFlag> {
    match call {
        Call::Make => flags.push(clear_flag()),
        Call::Cancel(f) => flags.update(f, set_flag(flags[f])),
        Call::Reset(f) => flags.update(f, reset_flag(flags[f])),
    }
}

/// The flags after calls in a row.
pub open spec fn after_calls(flags: Seq<CancelFlag>, calls: Seq<Call>) -> Seq<CancelFlag>
    decreases calls.len(),
{
    if calls.len() == 0 {
        flags
    } else {
        after_call(after_calls(flags, calls.drop_last()), calls.last())
    }
}

/// The calls are made on tokens that are there by then.
pub open spec fn callable(flags: Seq<CancelFlag>, calls: Seq<Call>) -> bool
    decreases calls.len(),
{
    calls.len() > 0 ==> callable(flags, calls.drop_last()) && match calls.last() {
        Call::Make => true,
        Call::Cancel(f) => 0 <= f < after_calls(flags, calls.drop_last()).len(),
        Call::Reset(f) => 0 <= f < after_calls(flags, calls.drop_last()).len(),
    }
}

/// Whether the last cancel or reset of the token with flag `f` among the calls was
/// a cancel; `start` where there is none.
pub open spec fn last_was_cancel(calls: Seq<Call>, f: int, start: bool) -> bool
    decreases calls.len(),
{
    if calls.len() == 0 {
        start
    } else if calls.last() == Call::Cancel(f) {
        true
    } else if calls.last() == Call::Reset(f) {
        false
    } else {
        last_was_cancel(calls.drop_last(), f, start)
    }
}

/// After any calls, a flag is set exactly where the last cancel or reset of its
/// token, or of a copy of it, was a cancel.
pub proof fn law_the_last_call_decides(flags: Seq<CancelFlag>, calls: Seq<Call>, f: int)
    requires
        callable(flags, calls),
        0 <= f < flags.len(),
    ensures
        flags.len() <= after_calls(flags, calls).len(),
        after_calls(flags, calls)[f].set == last_was_cancel(calls, f, flags[f].set),
    decreases calls.len(),
{
    if calls.len() > 0 {
        law_the_last_call_decides(flags, calls.drop_last(), f);
    }
}

/// Calls in a row are the first of them and then the others.
proof fn lemma_calls_in_two(flags: Seq<CancelFlag>, first: Seq<Call>, more: Seq<Call>)
    ensures
        after_calls(flags, first + more) == after_calls(after_calls(flags, first), more),
        callable(flags, first + more) == (callable(flags, first) && callable(
            after_calls(flags, first),
            more,
        )),
    decreases more.len(),
{
    let all = first + more;
    if more.len() == 0 {
        assert(all =~= first);
    } else {
        assert(all.drop_last() =~= first + more.drop_last());
        assert(all.last() == more.last());
        lemma_calls_in_two(flags, first, more.drop_last());
    }
}

/// After any calls, before and after the child of a token was made, on the token,
/// the child, copies of them and any others: the token is cancelled exactly where
/// its last cancel or reset was a cancel, and the child where its own was or the
/// token is cancelled.
pub proof fn law_parent_and_child_after_any_calls(
    flags: Seq<CancelFlag>,
    before: Seq<Call>,
    later: Seq<Call>,
    parent: CancelToken,
    child: CancelToken,
)
    requires
        parent.is_root(),
        parent.among(flags),
        !flags[parent.flag()].set,
        child.child_of(parent),
        child.flag() == after_calls(flags, before).len(),
        callable(flags, before + seq![Call::Make] + later),
    ensures
        ({
            let calls = before + seq![Call::Make] + later;
            let after = after_calls(flags, calls);
            &&& parent.requested(after) == last_was_cancel(calls, parent.flag(), false)
            &&& child.requested(after) == (last_was_cancel(later, child.flag(), false)
                || parent.requested(after))
        }),
{
    let made = before + seq![Call::Make];
    let calls = made + later;
    let after = after_calls(flags, calls);
    assert(parent.flag() == parent.line()[0]);
    lemma_calls_in_two(flags, made, later);
    assert(made.drop_last() =~= before);
    law_the_last_call_decides(flags, calls, parent.flag());
    law_the_last_call_decides(after_calls(flags, made), later, child.flag());
    law_root_sees_its_own_flag(after, parent);
    law_child_sees_what_its_parent_sees(after, parent, child);
}

/// How often the token with flag `f` is cancelled among the calls.
pub open spec fn cancel_count(calls: Seq<Call>, f: int) -> nat
    decreases calls.len(),
{
    if calls.len() == 0 {
        0
    } else if calls.last() == Call::Cancel(f) {
        cancel_count(calls.drop_last(), f) + 1
    } else {
        cancel_count(calls.drop_last(), f)
    }
}

/// The count of a flag goes up by one with each cancel, and starts again after the
/// largest `u64`.
proof fn lemma_cancels_are_counted(flags: Seq<CancelFlag>, calls: Seq<Call>, f: int)
    requires
        callable(flags, calls),
        0 <= f < flags.len(),
    ensures
        flags.len() <= after_calls(flags, calls).len(),
        after_calls(flags, calls)[f].cancels as int == (flags[f].cancels + cancel_count(calls, f))
            % 0x1_0000_0000_0000_0000,
    decreases calls.len(),
{
    if calls.len() > 0 {
        lemma_cancels_are_counted(flags, calls.drop_last(), f);
    }
}

/// A wait ends once the token, or one that it came from, was cancelled after the wait
/// began, whatever else is called in between and after, resets included. Only where
/// one of them is cancelled 2^64 times before the task looks is that not said.
pub proof fn law_a_wait_ends_after_a_cancel(
    flags: Seq<CancelFlag>,
    calls: Seq<Call>,
    waiting: CancelToken,
    watch: CancelWatch,
    f: int,
)
    requires
        waiting.among(flags),
        waiting.watched(flags, watch),
        waiting.line().contains(f),
        callable(flags, calls),
        0 < cancel_count(calls, f) < 0x1_0000_0000_0000_0000,
    ensures
        waiting.over(after_calls(flags, calls), watch),
{
    let after = after_calls(flags, calls);
    let line = waiting.line();
    let i = choose|i: int| 0 <= i < line.len() && line[i] == f;
    assert(0 <= line[i] < flags.len());
    lemma_cancels_are_counted(flags, calls, f);
    assert(cancels_of(after, line)[i] != cancels_of(flags, line)[i]);
}

/// Where the last cancel or reset of the token, or of one that it came from, was a
/// cancel, a wait is over and the token is cancelled when it ends.
pub proof fn law_a_wait_ends_with_the_token_cancelled(
    flags: Seq<CancelFlag>,
    calls: Seq<Call>,
    waiting: CancelToken,
    watch: CancelWatch,
    f: int,
)
    requires
        waiting.among(flags),
        waiting.line().contains(f),
        callable(flags, calls),
        last_was_cancel(calls, f, flags[f].set),
    ensures
        waiting.requested(after_calls(flags, calls)),
        waiting.over(after_calls(flags, calls), watch),
{
    let line = waiting.line();
    let i = choose|i: int| 0 <= i < line.len() && line[i] == f;
    assert(0 <= line[i] < flags.len());
    law_the_last_call_decides(flags, calls, f);
    assert(after_calls(flags, calls)[line[i]].set);
}

/// Without a cancel a flag is not set that was not.
proof fn lemma_no_cancel(calls: Seq<Call>, f: int)
    requires
        cancel_count(calls, f) == 0,
    ensures
        !last_was_cancel(calls, f, false),
    decreases calls.len(),
{
    if calls.len() > 0 {
        lemma_no_cancel(calls.drop_last(), f);
    }
}

/// A wait goes on as long as neither the token nor one that it came from is cancelled.
pub proof fn law_a_wait_goes_on_without_a_cancel(
    flags: Seq<CancelFlag>,
    calls: Seq<Call>,
    waiting: CancelToken,
    watch: CancelWatch,
)
    requires
        waiting.among(flags),
        !waiting.over(flags, watch),
        callable(flags, calls),
        forall|i: int|
            0 <= i < waiting.line().len() ==> cancel_count(calls, #[trigger] waiting.line()[i]) == 0,
    ensures
        !waiting.over(after_calls(flags, calls), watch),
{
    let after = after_calls(flags, calls);
    let line = waiting.line();
    assert forall|i: int| 0 <= i < line.len() implies !after[#[trigger] line[i]].set
        && after[line[i]].cancels == flags[line[i]].cancels by {
        assert(0 <= line[i] < flags.len());
        assert(cancel_count(calls, line[i]) == 0);
        assert(!flags[line[i]].set);
        law_the_last_call_decides(flags, calls, line[i]);
        lemma_no_cancel(calls, line[i]);
        lemma_cancels_are_counted(flags, calls, line[i]);
    }
    assert(cancels_of(after, line) =~= cancels_of(flags, line));
}

} // verus!
