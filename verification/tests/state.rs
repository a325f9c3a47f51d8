use bt_visualizer::color::edge_color;
use bt_visualizer::color::state_color;
use bt_visualizer::state::status_after;
use bt_visualizer::Color;
use bt_visualizer::ExtraData;
use bt_visualizer::GroupContent;
use bt_visualizer::GroupError;
use bt_visualizer::MyApp;
use bt_visualizer::NodeTypes;
use bt_visualizer::Status;
use bt_visualizer::Timestamp;
use bt_visualizer::VisualizerMessage;
use bt_visualizer::WatchContent;
use bt_visualizer::WatchState;

fn node(node_type: NodeTypes, name: &str, childs: Vec<WatchContent>) -> WatchContent {
    WatchContent {
        node_type,
        name: name.to_string(),
        watch_state: WatchState::Running,
        childs,
        comment: None,
    }
}

fn group_in(group: &str, name: &str, childs: Vec<WatchContent>) -> WatchContent {
    node(NodeTypes::GroupIn(group.to_string()), name, childs)
}

fn group_out(output: &str, name: &str, childs: Vec<WatchContent>) -> WatchContent {
    node(NodeTypes::GroupOut(output.to_string()), name, childs)
}

fn at(secs: i64, nanos: u32) -> Timestamp {
    Timestamp::new(secs, nanos).unwrap()
}

fn message(start: i64, sent: i64, content: WatchContent) -> VisualizerMessage {
    VisualizerMessage {
        start_time: at(start, 0),
        send_time: at(sent, 0),
        watch_content: content,
    }
}

fn nested() -> WatchContent {
    let inner = group_in("inner", "in", vec![group_out("on", "on", vec![])]);
    let flow = node(NodeTypes::Flow, "flow", vec![inner]);
    node(NodeTypes::Flow, "main", vec![group_in("outer", "out", vec![flow])])
}

fn connected() -> MyApp {
    let mut app = MyApp::new();
    app.receive(message(100, 200, nested()));
    app
}

#[test]
fn new_app_shows_an_empty_tree() {
    let app = MyApp::new();
    assert_eq!(app.tree.name, "Empty");
    assert_eq!(app.tree.node_type, NodeTypes::Flow);
    assert_eq!(app.tree.watch_state, WatchState::NoState);
    assert!(app.tree.childs.is_empty());
    assert_eq!(app.tree.comment, Some("This app visualizes behavior trees.".to_string()));
    assert!(app.reset_view);
    assert!(app.watching_group.is_empty());
    assert_eq!((app.start_time.secs(), app.start_time.nanos()), (0, 0));
}

#[test]
fn messages_of_one_run_connect_once() {
    let mut app = MyApp::new();
    app.reset_view = false;
    assert!(app.receive(message(100, 200, nested())));
    assert!(app.reset_view);
    assert_eq!(app.tree.name, "Begin");
    assert_eq!(app.tree.watch_state, WatchState::Running);
    assert_eq!(app.tree.childs.len(), 1);
    assert_eq!(app.tree.childs[0].name, "main");
    app.reset_view = false;
    assert!(!app.receive(message(100, 201, nested())));
    assert!(!app.reset_view);
    assert_eq!(app.last_message_time.secs(), 201);
    assert!(app.receive(message(300, 301, nested())));
    assert!(!app.reset_view);
    assert_eq!(app.start_time.secs(), 300);
}

#[test]
fn addresses_lead_to_nodes() {
    let app = connected();
    assert_eq!(app.take_node(&vec![]).unwrap().name, "Begin");
    assert_eq!(app.take_node(&vec![0, 0, 0]).unwrap().name, "flow");
    assert!(app.take_node(&vec![0, 1]).is_none());
    assert!(app.take_node(&vec![1, 0]).is_none());
}

#[test]
fn paths_name_the_groups() {
    let mut app = connected();
    assert_eq!(app.take_path(vec![]), Some("Begin".to_string()));
    assert_eq!(app.take_path(vec![0, 0]), Some("Begin/outer".to_string()));
    assert_eq!(app.take_path(vec![0, 0, 0]), Some("Begin/outer".to_string()));
    assert_eq!(app.take_path(vec![0, 0, 0, 0]), Some("Begin/outer/inner".to_string()));
    assert_eq!(app.take_path(vec![0, 7]), None);
    app.watching_group = vec![0, 0, 0, 0];
    assert_eq!(app.path_label(), "Begin/outer/inner");
    app.watching_group = vec![9];
    assert_eq!(app.path_label(), "İzlenilen gurup bulunamadı!");
}

#[test]
fn settling_cuts_back_to_a_group() {
    let mut app = connected();
    app.reset_view = false;
    app.watching_group = vec![0, 0, 0];
    app.settle();
    assert_eq!(app.watching_group, vec![0, 0]);
    assert!(app.reset_view);

    app.reset_view = false;
    app.watching_group = vec![0, 0, 5, 5];
    app.settle();
    assert_eq!(app.watching_group, vec![0, 0]);
    assert!(!app.reset_view);
    app.settle();
    assert_eq!(app.watching_group, vec![0, 0]);

    app.watching_group = vec![0, 3];
    app.settle();
    assert!(app.watching_group.is_empty());
    assert!(app.reset_view);
}

#[test]
fn the_watched_group_stays_watched() {
    let mut app = connected();
    app.open_group(vec![0, 0]);
    app.receive(message(100, 201, nested()));
    app.settle();
    assert_eq!(app.watching_group, vec![0, 0]);
    app.receive(message(100, 202, node(NodeTypes::Leaf, "alone", vec![])));
    app.settle();
    assert!(app.watching_group.is_empty());
}

#[test]
fn a_click_opens_and_back_closes() {
    let mut app = connected();
    app.reset_view = false;
    let shown = app.watch().unwrap();
    assert_eq!(shown.watch_content.name, "BEGIN");
    assert!(matches!(shown.extra_data, ExtraData::GroupBegin));
    assert!(shown.address.is_empty());
    let group = &shown.childs[0].childs[0];
    assert_eq!(group.watch_content.name, "OUT");
    assert!(!app.can_go_back());

    app.open_group(group.address.clone());
    assert!(app.reset_view);
    let shown = app.watch().unwrap();
    assert_eq!(app.watching_group, vec![0, 0]);
    assert_eq!(shown.watch_content.name, "OUT");
    let inner = &shown.childs[0].childs[0];
    assert_eq!(inner.watch_content.name, "IN");
    assert_eq!(inner.address, vec![0, 0, 0, 0]);
    app.open_group(inner.address.clone());
    assert_eq!(app.watch().unwrap().watch_content.name, "IN");

    assert!(app.can_go_back());
    app.go_back();
    assert_eq!(app.watching_group, vec![0, 0, 0]);
    assert_eq!(app.watch().unwrap().watch_content.name, "OUT");
    app.go_back();
    assert_eq!(app.watch().unwrap().watch_content.name, "BEGIN");
    app.go_back();
    assert!(app.watching_group.is_empty());
    assert!(app.reset_view);
}

#[test]
fn a_group_that_is_entered_again_is_not_shown() {
    let gold = group_in("loot", "loot", vec![node(NodeTypes::Leaf, "gold", vec![])]);
    let fight = group_in("fight", "fight", vec![group_out("win", "won", vec![gold])]);
    let mut app = MyApp::new();
    app.receive(message(1, 2, fight));
    assert!(app.watch().is_ok());
    app.open_group(vec![0]);
    assert!(matches!(app.watch(), Err(GroupError::UnknownOutput)));
}

#[test]
fn the_view_is_fitted_once() {
    let mut app = MyApp::new();
    assert!(!app.take_reset(false));
    assert!(app.reset_view);
    assert!(app.take_reset(true));
    assert!(!app.take_reset(true));
    app.request_reset(false);
    assert!(!app.reset_view);
    app.request_reset(true);
    app.request_reset(false);
    assert!(app.reset_view);
}

#[test]
fn statuses() {
    let mut app = MyApp::new();
    assert_eq!(app.status(&at(5, 0), &at(5, 0)), Some(Status::NoConnection));
    app.receive(message(100, 200, nested()));
    assert_eq!(app.status(&at(201, 0), &at(201, 1)), None);
    assert_eq!(
        app.status(&at(201, 1), &at(201, 5)),
        Some(Status::WaitingFor(1_000_000_005))
    );
    assert_eq!(app.status(&at(300, 0), &at(200, 0)), Some(Status::WaitingFor(0)));
    assert_eq!(app.status(&at(300, 0), &at(199, 999_999_999)), Some(Status::Waiting));
    assert_eq!(app.status(&at(100, 0), &at(100, 0)), None);
    assert_eq!(status_after(false, 1_000_000_001, -1), Some(Status::NoConnection));
}

#[test]
fn status_texts() {
    assert_eq!(Status::NoConnection.text("1.00"), "Bağlantı yok!");
    assert_eq!(Status::WaitingFor(7).text("1.25"), "Mesaj bekleniyor: 1.25s");
    assert_eq!(Status::Waiting.text("1.00"), "Mesaj bekleniyor!");
}

#[test]
fn timestamps_have_a_range() {
    for (secs, nanos) in [
        (0, 0),
        (-8_334_601_228_800, 0),
        (8_210_266_876_799, 999_999_999),
        (59, 1_999_999_999),
        (-1, 1_000_000_000),
        (0, 1_000_000_000),
        (58, 1_000_000_000),
        (59, 2_000_000_000),
        (-8_334_601_228_801, 0),
        (8_210_266_876_800, 0),
    ] {
        assert_eq!(
            Timestamp::new(secs, nanos).is_some(),
            chrono::DateTime::from_timestamp(secs, nanos).is_some(),
            "{} {}",
            secs,
            nanos
        );
    }
    assert!(Timestamp::new(-8_334_601_228_801, 0).is_none());
    assert!(at(3, 4).same(&at(3, 4)));
    assert!(!at(3, 4).same(&at(3, 5)));
}

#[test]
fn differences_of_times() {
    assert_eq!(at(10, 5).since(&at(8, 7)), 1_999_999_998);
    assert_eq!(at(8, 7).since(&at(10, 5)), -1_999_999_998);
    assert_eq!(at(0, 0).since(&at(0, 1)), -1);
    assert_eq!(
        at(8_210_266_876_799, 0).since(&at(-8_334_601_228_800, 0)),
        16_544_868_105_599_000_000_000
    );
    // A leap second that the later time of day lies beyond counts in full.
    assert_eq!(at(60, 0).since(&at(59, 1_500_000_000)), 500_000_000);
    assert_eq!(at(59, 1_500_000_000).since(&at(60, 0)), -500_000_000);
    assert_eq!(at(59, 1_500_000_000).since(&at(59, 0)), 1_500_000_000);
    assert_eq!(at(59, 1_500_000_000).since(&at(58, 0)), 2_500_000_000);
    assert_eq!(at(86_400, 0).since(&at(59, 1_500_000_000)), 86_339_500_000_000);
}

#[test]
fn colors_by_state() {
    let color = |r: u8, g: u8, b: u8| Color { r, g, b, a: 255 };
    assert_eq!(state_color(WatchState::Cancelled), color(255, 0, 255));
    assert_eq!(state_color(WatchState::Failed), color(255, 128, 128));
    assert_eq!(state_color(WatchState::NoState), color(220, 220, 220));
    assert_eq!(state_color(WatchState::Succeeded), color(0x90, 0xEE, 0x90));
    assert_eq!(state_color(WatchState::Running), color(0xAD, 0xD8, 0xE6));
    assert_eq!(edge_color(WatchState::Cancelled), color(200, 0, 200));
    assert_eq!(edge_color(WatchState::Failed), color(200, 100, 100));
    assert_eq!(edge_color(WatchState::NoState), color(173, 173, 173));
    assert_eq!(edge_color(WatchState::Running), color(136, 169, 180));
}

#[test]
fn color_products_are_rounded_to_the_nearest() {
    for x in 0..=255u32 {
        for y in 0..=255u32 {
            let left = egui::Color32::from_rgba_premultiplied(x as u8, 0, 0, 255);
            let right = egui::Color32::from_rgba_premultiplied(y as u8, 0, 0, 255);
            assert_eq!((left * right).r() as u32, (2 * x * y + 255) / 510);
        }
    }
}

fn walk<'a>(list: &'a [GroupContent], found: &mut Vec<&'a GroupContent>) {
    for shown in list {
        found.push(shown);
        walk(&shown.childs, found);
    }
}

#[test]
fn shown_nodes_stand_for_nodes_of_the_tree() {
    let fight = group_in(
        "fight",
        "fight",
        vec![node(
            NodeTypes::Decorator,
            "hidden",
            vec![group_out("win", "won", vec![node(NodeTypes::Leaf, "cheer", vec![])])],
        )],
    );
    let mut app = MyApp::new();
    app.receive(message(1, 2, node(NodeTypes::Flow, "main", vec![nested(), fight])));
    let shown = app.watch().unwrap();
    let mut found = vec![];
    walk(&shown.childs, &mut found);
    let mut addresses: Vec<Vec<usize>> = found.iter().map(|s| s.address.clone()).collect();
    for shown in &found {
        let origin = app.take_node(&shown.address).unwrap();
        assert_eq!(shown.watch_content.name, origin.name.to_uppercase());
        assert_eq!(shown.watch_content.node_type, origin.node_type);
        assert_eq!(shown.watch_content.watch_state, origin.watch_state);
    }
    assert!(!addresses.contains(&vec![0, 1, 0]));
    assert!(!addresses.contains(&vec![0, 1, 0, 0]));
    assert!(addresses.contains(&vec![0, 1, 0, 0, 0]));
    let count = addresses.len();
    addresses.sort();
    addresses.dedup();
    assert_eq!(addresses.len(), count);
    for shown in &found {
        if let NodeTypes::GroupIn(_) = shown.watch_content.node_type {
            assert!(matches!(shown.extra_data, ExtraData::GroupNode(_)));
        }
    }
}
