//! What the visualizer knows: the reported tree, the group that is watched and
//! the times of the messages.

use vstd::prelude::*;
use vstd::string::*;

use crate::group;
use crate::group::Extra;
use crate::group::ExtraData;
use crate::group::GroupContent;
use crate::group::GroupTree;
use crate::time;
use crate::time::Moment;
use crate::time::Timestamp;
use crate::tree;
use crate::tree::Kind;
use crate::tree::NodeTypes;
use crate::tree::WatchContent;
use crate::tree::WatchState;
use crate::tree::WatchTree;

verus! {

/// A report of the tree: when the reporting program was started, when the
/// report was sent, and the tree.
#[derive(Debug)]
pub struct VisualizerMessage {
    pub start_time: Timestamp,
    pub send_time: Timestamp,
    pub watch_content: WatchContent,
}

/// The model of `VisualizerMessage`.
pub struct Message {
    pub start: Moment,
    pub sent: Moment,
    pub content: WatchTree,
}

impl View for VisualizerMessage {
    type V = Message;

    open spec fn view(&self) -> Message {
        Message {
            start: self.start_time@,
            sent: self.send_time@,
            content: self.watch_content@,
        }
    }
}

/// The state of the visualizer.
#[derive(Debug)]
pub struct MyApp {
    /// The address of the watched group; the whole tree where it is empty.
    pub watching_group: Vec<usize>,
    pub tree: WatchContent,
    /// Whether the view is to be fitted to the watched group again.
    pub reset_view: bool,
    pub start_time: Timestamp,
    pub last_message_time: Timestamp,
}

/// The model of `MyApp`.
#[verifier::ext_equal]
pub struct AppState {
    pub watching: Seq<usize>,
    pub tree: WatchTree,
    pub reset: bool,
    pub start: Moment,
    pub last_message: Moment,
}

impl View for MyApp {
    type V = AppState;

    open spec fn view(&self) -> AppState {
        AppState {
            watching: self.watching_group@,
            tree: self.tree@,
            reset: self.reset_view,
            start: self.start_time@,
            last_message: self.last_message_time@,
        }
    }
}

/// The state before any message.
pub open spec fn initial_state() -> AppState {
    AppState {
        watching: Seq::empty(),
        tree: WatchTree {
            kind: Kind::Flow,
            name: "Empty"@,
            state: WatchState::NoState,
            childs: Seq::empty(),
            comment: Some("This app visualizes behavior trees."@),
        },
        reset: true,
        start: time::epoch(),
        last_message: time::epoch(),
    }
}

/// Whether a message comes from another run of the reporting program than the
/// message before.
pub open spec fn new_connection(state: AppState, message: Message) -> bool {
    state.start != message.start
}

/// The state after a message: the reported tree stands below a root of its own,
/// and the view is fitted again on the first connection.
pub open spec fn received(state: AppState, message: Message) -> AppState {
    AppState {
        watching: state.watching,
        tree: WatchTree {
            kind: Kind::Flow,
            name: "Begin"@,
            state: WatchState::Running,
            childs: seq![message.content],
            comment: None,
        },
        reset: state.reset || new_connection(state, message) && state.start == time::epoch(),
        start: message.start,
        last_message: message.sent,
    }
}

/// Whether a group can be watched at an address: it is empty or that of a group.
pub open spec fn watchable(root: WatchTree, address: Seq<usize>) -> bool {
    address.len() == 0 || match tree::descend(root, address) {
        Some(node) => node.kind is GroupIn,
        None => false,
    }
}

/// How long the longest beginning of an address is at which a group can be watched.
pub open spec fn watchable_len(root: WatchTree, address: Seq<usize>) -> nat
    decreases address.len(),
{
    if watchable(root, address) {
        address.len()
    } else {
        watchable_len(root, address.drop_last())
    }
}

/// The state in which a group can be watched: the address is cut back to where
/// one can, and the view is fitted again if a node was left that is in the tree.
pub open spec fn settled(state: AppState) -> AppState {
    let len = watchable_len(state.tree, state.watching) as int;
    AppState {
        watching: state.watching.take(len),
        reset: state.reset || len < state.watching.len() && tree::descend(
            state.tree,
            state.watching.take(len + 1),
        ) is Some,
        ..state
    }
}

/// The watched group before its groups have their outputs.
pub open spec fn opened_group(state: AppState) -> GroupTree
    recommends
        tree::descend(state.tree, state.watching) is Some,
{
    let parent = tree::descend(state.tree, state.watching)->0;
    GroupTree {
        content: tree::caption(parent),
        extra: Extra::GroupBegin,
        childs: group::group_list(parent.childs, 0, state.watching),
        address: Seq::empty(),
    }
}

/// Why the watched group cannot be shown.
#[derive(PartialEq, Eq, Structural, Debug, Clone, Copy)]
pub enum GroupError {
    /// More groups are opened or closed on a way down than an `i32` counts.
    TooDeep,
    /// A node other than an output stands directly below a closed group.
    UnknownOutput,
}

/// The part that a node has in the path to the nodes below it.
pub open spec fn path_part(node: Option<WatchTree>) -> Seq<char> {
    match node {
        Some(n) => match n.kind {
            Kind::GroupIn(group_name) => "/"@ + group_name,
            _ => Seq::empty(),
        },
        None => Seq::empty(),
    }
}

/// The names of the groups on the way to an address, each after a slash.
pub open spec fn path_parts(root: WatchTree, address: Seq<usize>) -> Seq<char>
    decreases address.len(),
{
    if address.len() == 0 {
        path_part(Some(root))
    } else {
        path_parts(root, address.drop_last()) + path_part(tree::descend(root, address))
    }
}

/// What is said while no message comes.
#[derive(PartialEq, Eq, Structural, Debug, Clone, Copy)]
pub enum Status {
    /// No message has come yet.
    NoConnection,
    /// The last message was sent this many nanoseconds ago.
    WaitingFor(u128),
    /// The last message was sent at a time that is yet to come.
    Waiting,
}

/// The text of a status, where the seconds that were waited are already in text.
pub open spec fn status_text(status: Status, seconds: Seq<char>) -> Seq<char> {
    match status {
        Status::NoConnection => "Bağlantı yok!"@,
        Status::WaitingFor(_) => "Mesaj bekleniyor: "@ + seconds + "s"@,
        Status::Waiting => "Mesaj bekleniyor!"@,
    }
}

impl Status {
    /// The text of the status, where the seconds that were waited are already in text.
    pub fn text(&self, seconds: &str) -> (text: String)
        ensures
            text@ == status_text(*self, seconds@),
    {
        match self {
            Status::NoConnection => "Bağlantı yok!".to_string(),
            Status::WaitingFor(_) => {
                let mut text = "Mesaj bekleniyor: ".to_string();
                text.append(seconds);
                text.append("s");
                text
            },
            Status::Waiting => "Mesaj bekleniyor!".to_string(),
        }
    }
}

/// What is said, where the last message was sent `waited` nanoseconds before
/// the clock was first read, and `waited_since` before it was read again.
pub open spec fn status_of(connected: bool, waited: int, waited_since: int) -> Option<Status> {
    if waited <= time::SECOND {
        None
    } else if !connected {
        Some(Status::NoConnection)
    } else if waited_since >= 0 {
        Some(Status::WaitingFor(waited_since as u128))
    } else {
        Some(Status::Waiting)
    }
}

/// What is said, if anything: nothing until a message is overdue by a second.
pub fn status_after(connected: bool, waited: i128, waited_since: i128) -> (status: Option<Status>)
    ensures
        status == status_of(connected, waited as int, waited_since as int),
{
    if waited <= time::SECOND as i128 {
        None
    } else if !connected {
        Some(Status::NoConnection)
    } else if waited_since >= 0 {
        Some(Status::WaitingFor(waited_since as u128))
    } else {
        Some(Status::Waiting)
    }
}

impl MyApp {
    /// The visualizer before any message.
    pub fn new() -> (app: MyApp)
        ensures
            app@ == initial_state(),
    {
        let app = MyApp {
            watching_group: Vec::new(),
            tree: WatchContent {
                node_type: NodeTypes::Flow,
                name: "Empty".to_string(),
                watch_state: WatchState::NoState,
                childs: Vec::new(),
                comment: Some("This app visualizes behavior trees.".to_string()),
            },
            reset_view: true,
            start_time: Timestamp::default(),
            last_message_time: Timestamp::default(),
        };
        assert(app@.tree.childs =~= Seq::<WatchTree>::empty());
        app
    }

    /// Takes a message in, and tells whether it is the first of a new connection.
    pub fn receive(&mut self, message: VisualizerMessage) -> (connected: bool)
        ensures
            final(self)@ == received(old(self)@, message@),
            connected == new_connection(old(self)@, message@),
    {
        let ghost content = message.watch_content@;
        let mut childs: Vec<WatchContent> = Vec::new();
        childs.push(message.watch_content);
        self.tree = WatchContent {
            node_type: NodeTypes::Flow,
            name: "Begin".to_string(),
            watch_state: WatchState::Running,
            childs: childs,
            comment: None,
        };
        assert(self.tree@.childs =~= seq![content]);
        self.last_message_time = message.send_time;
        let connected = !self.start_time.same(&message.start_time);
        if connected {
            if self.start_time.same(&Timestamp::default()) {
                self.reset_view = true;
            }
            self.start_time = message.start_time;
        }
        connected
    }

    /// The node that an address leads to from the root.
    pub fn take_node(&self, address: &Vec<usize>) -> (found: Option<&WatchContent>)
        ensures
            match found {
                Some(node) => tree::descend(self@.tree, address@) == Some(node@),
                None => tree::descend(self@.tree, address@) is None,
            },
    {
        self.tree.descend(address)
    }

    /// Cuts the address of the watched group back to where a group can be watched.
    pub fn settle(&mut self)
        ensures
            final(self)@ == settled(old(self)@),
    {
        let ghost start = self@;
        let ghost len = watchable_len(start.tree, start.watching) as int;
        assert(start.watching.take(start.watching.len() as int) =~= start.watching);
        while self.watching_group.len() > 0
            invariant
                start == old(self)@,
                len == watchable_len(start.tree, start.watching),
                self@.tree == start.tree,
                self@.start == start.start,
                self@.last_message == start.last_message,
                self@.watching.len() <= start.watching.len(),
                self@.watching == start.watching.take(self@.watching.len() as int),
                len == watchable_len(start.tree, self@.watching),
                self@.reset == (start.reset || self@.watching.len() < start.watching.len()
                    && tree::descend(
                    start.tree,
                    start.watching.take(self@.watching.len() as int + 1),
                ) is Some),
            ensures
                self@.tree == start.tree,
                self@.start == start.start,
                self@.last_message == start.last_message,
                self@.watching == start.watching.take(len),
                len == self@.watching.len(),
                self@.reset == (start.reset || len < start.watching.len() && tree::descend(
                    start.tree,
                    start.watching.take(len + 1),
                ) is Some),
            decreases self.watching_group.len(),
        {
            let ghost here = self@.watching;
            proof {
                assert(here.drop_last() =~= start.watching.take(here.len() - 1));
                if here.len() < start.watching.len() {
                    let longer = start.watching.take(here.len() as int + 1);
                    assert(longer.take(here.len() as int) =~= here);
                    if tree::descend(start.tree, here) is None {
                        tree::lemma_lost_stays_lost(start.tree, longer, here.len() as int);
                    }
                }
            }
            let found: Option<bool> = match self.take_node(&self.watching_group) {
                Some(node) => match &node.node_type {
                    NodeTypes::GroupIn(_) => Some(true),
                    _ => Some(false),
                },
                None => None,
            };
            match found {
                None => {
                    self.watching_group.pop();
                },
                Some(true) => {
                    break;
                },
                Some(false) => {
                    self.watching_group.pop();
                    self.reset_view = true;
                },
            }
            assert(self@.watching =~= here.drop_last());
        }
    }

    /// Settles on a group that can be watched, and gives it as it is shown.
    pub fn watch(&mut self) -> (shown: Result<GroupContent, GroupError>)
        ensures
            final(self)@ == settled(old(self)@),
            ({
                let state = settled(old(self)@);
                let nodes = tree::descend(state.tree, state.watching)->0.childs;
                match shown {
                    Ok(shown) => {
                        &&& group::count_fits(nodes, 0)
                        &&& group::outputs_known(opened_group(state))
                        &&& shown@ == group::with_outputs(opened_group(state))
                    },
                    Err(GroupError::TooDeep) => !group::count_fits(nodes, 0),
                    Err(GroupError::UnknownOutput) => {
                        &&& group::count_fits(nodes, 0)
                        &&& !group::outputs_known(opened_group(state))
                    },
                }
            }),
    {
        self.settle();
        proof {
            lemma_settled(old(self)@);
        }
        let group_parent: &WatchContent = self.take_node(&self.watching_group).unwrap();
        proof {
            tree::lemma_childs_model(*group_parent);
        }
        if !group::count_stays_in_range(&group_parent.childs, 0) {
            return Err(GroupError::TooDeep);
        }
        let address: Vec<usize> = self.watching_group.clone();
        assert(address@ =~= self.watching_group@);
        let group_with_out = GroupContent {
            childs: GroupContent::get_group(&group_parent.childs, 0, address),
            extra_data: ExtraData::GroupBegin,
            watch_content: group_parent.caption(),
            address: Vec::new(),
        };
        proof {
            group::lemma_childs_model(group_with_out);
            assert(group_with_out@.address =~= Seq::<usize>::empty());
        }
        if !group_with_out.has_known_outputs() {
            return Err(GroupError::UnknownOutput);
        }
        Ok(GroupContent::calculate_group_outputs(group_with_out))
    }

    /// The path of an address: the names of the groups on the way to it.
    pub fn take_path(&self, address: Vec<usize>) -> (path: Option<String>)
        ensures
            match path {
                Some(path) => tree::descend(self@.tree, address@) is Some && path@ == "Begin"@
                    + path_parts(self@.tree, address@),
                None => tree::descend(self@.tree, address@) is None,
            },
    {
        let mut rest = address;
        let mut result = String::new();
        let ghost root = self@.tree;
        let ghost whole = rest@;
        #[verifier::loop_isolation(false)]
        loop
            invariant
                rest@ == whole || tree::descend(root, whole) is Some,
                path_parts(root, whole) == path_parts(root, rest@) + result@,
                tree::descend(root, rest@) is None ==> tree::descend(root, whole) is None,
            decreases rest.len(),
        {
            let ghost here = rest@;
            let ghost found = result@;
            let Some(node) = self.take_node(&rest) else {
                return None;
            };
            if let NodeTypes::GroupIn(group_name) = &node.node_type {
                let mut longer = "/".to_string();
                longer.append(group_name.as_str());
                longer.append(result.as_str());
                result = longer;
            }
            assert(result@ =~= path_part(tree::descend(root, here)) + found);
            if rest.pop().is_none() {
                assert(path_parts(root, whole) == result@);
                break;
            }
            assert(rest@ =~= here.drop_last());
            assert(path_parts(root, whole) =~= path_parts(root, rest@) + result@);
        }
        let mut path = "Begin".to_string();
        path.append(result.as_str());
        Some(path)
    }

    /// The path of the watched group as it is shown.
    pub fn path_label(&self) -> (label: String)
        ensures
            label@ == if tree::descend(self@.tree, self@.watching) is Some {
                "Begin"@ + path_parts(self@.tree, self@.watching)
            } else {
                "İzlenilen gurup bulunamadı!"@
            },
    {
        let address: Vec<usize> = self.watching_group.clone();
        assert(address@ =~= self.watching_group@);
        match self.take_path(address) {
            Some(path) => path,
            None => "İzlenilen gurup bulunamadı!".to_string(),
        }
    }

    /// Watches the group at an address.
    pub fn open_group(&mut self, address: Vec<usize>)
        ensures
            final(self)@ == (AppState { watching: address@, reset: true, ..old(self)@ }),
    {
        self.watching_group = address;
        self.reset_view = true;
    }

    /// Tells whether there is a group around the watched one.
    pub fn can_go_back(&self) -> (can: bool)
        ensures
            can == (self@.watching.len() != 0),
    {
        self.watching_group.len() != 0
    }

    /// Leaves the watched group.
    pub fn go_back(&mut self)
        ensures
            final(self)@ == (AppState {
                watching: if old(self)@.watching.len() == 0 {
                    old(self)@.watching
                } else {
                    old(self)@.watching.drop_last()
                },
                reset: true,
                ..old(self)@
            }),
    {
        self.watching_group.pop();
        self.reset_view = true;
        assert(self@.watching =~= if old(self)@.watching.len() == 0 {
            old(self)@.watching
        } else {
            old(self)@.watching.drop_last()
        });
    }

    /// Asks for the view to be fitted again, if the button for it was clicked.
    pub fn request_reset(&mut self, clicked: bool)
        ensures
            final(self)@ == (AppState { reset: clicked || old(self)@.reset, ..old(self)@ }),
    {
        self.reset_view = clicked || self.reset_view;
    }

    /// Tells whether the view is to be fitted now, which is then done with. It
    /// has to wait while the size of the view is not settled.
    pub fn take_reset(&mut self, size_settled: bool) -> (fit: bool)
        ensures
            fit == (old(self)@.reset && size_settled),
            final(self)@ == (AppState {
                reset: old(self)@.reset && !size_settled,
                ..old(self)@
            }),
    {
        let fit = self.reset_view && size_settled;
        if fit {
            self.reset_view = false;
        }
        fit
    }

    /// What is said of the messages, where the clock was read at `now` and then
    /// at `now_again`.
    pub fn status(&self, now: &Timestamp, now_again: &Timestamp) -> (status: Option<Status>)
        ensures
            status == status_of(
                self@.start != time::epoch(),
                time::nanos_between(self@.last_message, now@),
                time::nanos_between(self@.last_message, now_again@),
            ),
    {
        let connected = !self.start_time.same(&Timestamp::default());
        status_after(
            connected,
            now.since(&self.last_message_time),
            now_again.since(&self.last_message_time),
        )
    }
}

/// In a settled state a group can be watched, and it is in the tree.
pub proof fn lemma_settled(state: AppState)
    ensures
        watchable(state.tree, settled(state).watching),
        tree::descend(state.tree, settled(state).watching) is Some,
{
    lemma_watchable_len(state.tree, state.watching);
}

/// The longest beginning of an address at which a group can be watched is one
/// at which a group can be watched, and no longer one is.
pub proof fn lemma_watchable_len(root: WatchTree, address: Seq<usize>)
    ensures
        watchable_len(root, address) <= address.len(),
        watchable(root, address.take(watchable_len(root, address) as int)),
        forall|n: int|
            watchable_len(root, address) < n <= address.len() ==> !watchable(
                root,
                #[trigger] address.take(n),
            ),
    decreases address.len(),
{
    let len = watchable_len(root, address) as int;
    if watchable(root, address) {
        assert(address.take(len) =~= address);
    } else {
        let shorter = address.drop_last();
        lemma_watchable_len(root, shorter);
        assert(shorter.take(len) =~= address.take(len));
        assert forall|n: int| len < n <= address.len() implies !watchable(
            root,
            #[trigger] address.take(n),
        ) by {
            if n == address.len() {
                assert(address.take(n) =~= address);
            } else {
                assert(shorter.take(n) =~= address.take(n));
            }
        }
    }
}

} // verus!
