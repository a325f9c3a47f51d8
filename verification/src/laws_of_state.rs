//! What holds of the state of the visualizer: messages, the watched address,
//! paths and the status.

use vstd::prelude::*;

use crate::laws;
use crate::state;
use crate::state::AppState;
use crate::state::Message;
use crate::state::Status;
use crate::time::Moment;
use crate::tree;
use crate::tree::WatchTree;

verus! {

/// After settling the watched address is empty or leads to a group, and it is
/// the longest beginning of the address before that is so. The view is to be
/// fitted again if it was to be before, or if the address was cut back past a
/// node that is in the tree. Nothing else changes.
pub proof fn lemma_settled_on_group(before: AppState)
    ensures
        ({
            let after = state::settled(before);
            &&& after.watching.len() <= before.watching.len()
            &&& after.watching == before.watching.take(after.watching.len() as int)
            &&& after.watching.len() == 0 || laws::leads_to_group(before.tree, after.watching)
            &&& forall|n: int|
                after.watching.len() < n <= before.watching.len() ==> !laws::leads_to_group(
                    before.tree,
                    #[trigger] before.watching.take(n),
                )
            &&& after.reset <==> before.reset || exists|n: int|
                after.watching.len() < n <= before.watching.len() && tree::descend(
                    before.tree,
                    #[trigger] before.watching.take(n),
                ) is Some
            &&& after.tree == before.tree
            &&& after.start == before.start
            &&& after.last_message == before.last_message
        }),
{
    let after = state::settled(before);
    let len = state::watchable_len(before.tree, before.watching) as int;
    state::lemma_watchable_len(before.tree, before.watching);
    assert(after.watching.len() == len);
    assert forall|n: int| len < n <= before.watching.len() implies !laws::leads_to_group(
        before.tree,
        #[trigger] before.watching.take(n),
    ) by {
        assert(!state::watchable(before.tree, before.watching.take(n)));
    }
    if exists|n: int|
        len < n <= before.watching.len() && tree::descend(
            before.tree,
            #[trigger] before.watching.take(n),
        ) is Some {
        let n = choose|n: int|
            len < n <= before.watching.len() && tree::descend(
                before.tree,
                #[trigger] before.watching.take(n),
            ) is Some;
        assert(before.watching.take(n).take(len + 1) =~= before.watching.take(len + 1));
        if tree::descend(before.tree, before.watching.take(len + 1)) is None {
            tree::lemma_lost_stays_lost(before.tree, before.watching.take(n), len + 1);
        }
    }
}

/// The empty address leads to the root, and a step further to the child with
/// that index, where there is one.
pub proof fn lemma_address_leads_by_steps(root: WatchTree, address: Seq<usize>, step: usize)
    ensures
        tree::descend(root, Seq::empty()) == Some(root),
        match tree::descend(root, address) {
            Some(node) => {
                &&& step < node.childs.len() ==> tree::descend(root, address.push(step)) == Some(
                    node.childs[step as int],
                )
                &&& step >= node.childs.len() ==> tree::descend(root, address.push(step)) is None
            },
            None => tree::descend(root, address.push(step)) is None,
        },
{
    assert(address.push(step).drop_last() =~= address);
    assert(address.push(step).last() == step);
}

/// The visualizer begins with the whole of an empty tree, no message, and a
/// view that is to be fitted.
pub proof fn lemma_begins_empty()
    ensures
        ({
            let first = state::initial_state();
            &&& first.watching.len() == 0
            &&& first.reset
            &&& first.start == (Moment { secs: 0, nanos: 0 })
            &&& first.last_message == (Moment { secs: 0, nanos: 0 })
            &&& first.tree.kind is Flow
            &&& first.tree.name == "Empty"@
            &&& first.tree.state is NoState
            &&& first.tree.childs.len() == 0
            &&& first.tree.comment == Some("This app visualizes behavior trees."@)
        }),
{
}

/// A message replaces the tree by the reported one, below a running root, and
/// the times by its own, and leaves the watched address. It is a new connection
/// where it gives another start than the message before, and the view is then
/// fitted if there was no message before.
pub proof fn lemma_message_taken_in(before: AppState, message: Message)
    ensures
        ({
            let after = state::received(before, message);
            let first = before.start == (Moment { secs: 0, nanos: 0 });
            &&& after.tree.childs == seq![message.content]
            &&& after.tree.kind is Flow
            &&& after.tree.name == "Begin"@
            &&& after.tree.state is Running
            &&& after.tree.comment is None
            &&& after.start == message.start
            &&& after.last_message == message.sent
            &&& after.watching == before.watching
            &&& state::new_connection(before, message) <==> message.start != before.start
            &&& after.reset <==> before.reset || first && message.start != before.start
        }),
{
}

/// Nothing is said for a second after a message. Then it is said that there is
/// no connection where there was none, and otherwise how long ago the message
/// was sent, unless that is yet to come.
pub proof fn lemma_status_by_wait(connected: bool, waited: int, again: int)
    requires
        again <= u128::MAX,
    ensures
        ({
            let status = state::status_of(connected, waited, again);
            let late = waited > 1_000_000_000;
            &&& status is None <==> !late
            &&& status == Some(Status::NoConnection) <==> late && !connected
            &&& status == Some(Status::Waiting) <==> late && connected && again < 0
            &&& late && connected && again >= 0 ==> {
                &&& status matches Some(Status::WaitingFor(nanos))
                &&& nanos == again
            }
        }),
{
}

/// What is said in words.
pub proof fn lemma_status_in_words(status: Status, seconds: Seq<char>)
    ensures
        status is NoConnection ==> state::status_text(status, seconds) == "Bağlantı yok!"@,
        status is Waiting ==> state::status_text(status, seconds) == "Mesaj bekleniyor!"@,
        status is WaitingFor ==> state::status_text(status, seconds) == "Mesaj bekleniyor: "@
            + seconds + "s"@,
{
}

} // verus!
