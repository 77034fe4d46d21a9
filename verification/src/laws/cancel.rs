//! Laws of cancellation: what flags, tokens and waits are.

use std::sync::Arc;

use tokio::sync::Notify;
use vstd::prelude::*;

use crate::cancel;
use crate::cancel::{CancelFlag, CancelToken, CancelWatch};

verus! {

/// A flag starts out clear, a cancel sets it and counts, a reset clears it and leaves
/// the count.
pub proof fn law_what_happens_to_a_flag(flag: CancelFlag)
    ensures
        !cancel::clear_flag().set,
        cancel::clear_flag().cancels == 0,
        cancel::set_flag(flag).set,
        flag.cancels < u64::MAX ==> cancel::set_flag(flag).cancels == flag.cancels + 1,
        flag.cancels == u64::MAX ==> cancel::set_flag(flag).cancels == 0,
        !cancel::reset_flag(flag).set,
        cancel::reset_flag(flag).cancels == flag.cancels,
{
}

/// A token is cancelled exactly where its own flag, or that of any token that it came
/// from, is set.
pub proof fn law_when_a_token_is_cancelled(flags: Seq<CancelFlag>, token: CancelToken, i: int)
    ensures
        0 <= i < token.line().len() && flags[token.line()[i]].set ==> token.requested(flags),
        (forall|j: int| 0 <= j < token.line().len() ==> !flags[#[trigger] token.line()[j]].set)
            ==> !token.requested(flags),
{
}

/// A copy of a token is the token: it is cancelled with it, waits on the same notifiers
/// and hears the same tokens.
pub proof fn law_copies_are_the_token(
    copy: CancelToken,
    token: CancelToken,
    other: CancelToken,
    flags: Seq<CancelFlag>,
    notifiers: Seq<Notify>,
    watch: CancelWatch,
)
    requires
        copy.same_as(token),
    ensures
        copy.line() == token.line(),
        copy.flag() == token.flag(),
        copy.among(flags) == token.among(flags),
        copy.requested(flags) == token.requested(flags),
        copy.watched(flags, watch) == token.watched(flags, watch),
        copy.over(flags, watch) == token.over(flags, watch),
        copy.waits_on(notifiers) == token.waits_on(notifiers),
        copy.hears(other) == token.hears(other),
{
}

/// The line of a child is its own flag and then the line of its parent; that of a
/// token without a parent is its own flag.
pub proof fn law_where_a_token_comes_from(child: CancelToken, parent: CancelToken)
    ensures
        child.child_of(parent) ==> child.line().len() == parent.line().len() + 1
            && child.line().skip(1) == parent.line() && child.line()[0] == child.flag(),
        child.is_root() ==> child.line() == seq![child.flag()],
{
    if child.child_of(parent) {
        assert(child.line().skip(1) =~= parent.line());
    }
    if child.is_root() {
        assert(child.line() =~= seq![child.flag()]);
    }
}

/// A task waits on the notifier of the token and on that of each that it came from.
pub proof fn law_what_a_task_waits_on(token: CancelToken, notifiers: Seq<Notify>, i: int)
    ensures
        token.waits_on(notifiers).len() == token.line().len(),
        0 <= i < token.line().len() ==> token.waits_on(notifiers)[i] == notifiers[token.line()[i]],
{
}

/// A wait is over where the token is cancelled, or where it or one that it came from
/// was cancelled another number of times than when the wait began, and only there.
pub proof fn law_when_a_wait_is_over(
    flags: Seq<CancelFlag>,
    then: Seq<CancelFlag>,
    token: CancelToken,
    watch: CancelWatch,
    i: int,
)
    requires
        token.watched(then, watch),
    ensures
        token.requested(flags) ==> token.over(flags, watch),
        0 <= i < token.line().len() && flags[token.line()[i]].cancels
            != then[token.line()[i]].cancels ==> token.over(flags, watch),
        !token.requested(flags) && (forall|j: int|
            0 <= j < token.line().len() ==> flags[#[trigger] token.line()[j]].cancels
                == then[token.line()[j]].cancels) ==> !token.over(flags, watch),
{
    let line = token.line();
    let now = cancel::cancels_of(flags, line);
    let before = cancel::cancels_of(then, line);
    if 0 <= i < line.len() && now[i] != before[i] {
        assert(now != before);
    }
    if forall|j: int|
        0 <= j < line.len() ==> flags[#[trigger] line[j]].cancels == then[line[j]].cancels {
        assert(now =~= before);
    }
}

/// The notifiers that handles point to are those of each handle, in their order, and a
/// family that grew has one notifier more, behind those it had.
pub proof fn law_notifiers(list: Seq<Arc<Notify>>, before: Seq<Notify>, after: Seq<Notify>, i: int)
    ensures
        cancel::pointed_to(list).len() == list.len(),
        0 <= i < list.len() ==> cancel::pointed_to(list)[i] == *list[i],
        cancel::one_more(before, after) ==> after.len() == before.len() + 1,
        cancel::one_more(before, after) && 0 <= i < before.len() ==> after[i] == before[i],
{
    if cancel::one_more(before, after) && 0 <= i < before.len() {
        assert(after.drop_last()[i] == after[i]);
    }
}

} // verus!
