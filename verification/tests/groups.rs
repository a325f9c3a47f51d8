use bt_visualizer::group::count_stays_in_range;
use bt_visualizer::group::GroupContent;
use bt_visualizer::shape::output_spans;
use bt_visualizer::text::join;
use bt_visualizer::EdgeLayout;
use bt_visualizer::ExtraData;
use bt_visualizer::NodeShape;
use bt_visualizer::NodeTypes;
use bt_visualizer::Span;
use bt_visualizer::WatchContent;
use bt_visualizer::WatchState;

fn node(node_type: NodeTypes, name: &str, childs: Vec<WatchContent>) -> WatchContent {
    WatchContent {
        node_type,
        name: name.to_string(),
        watch_state: WatchState::Running,
        childs,
        comment: None,
    }
}

fn leaf(name: &str) -> WatchContent {
    node(NodeTypes::Leaf, name, vec![])
}

fn group_in(group: &str, name: &str, childs: Vec<WatchContent>) -> WatchContent {
    node(NodeTypes::GroupIn(group.to_string()), name, childs)
}

fn group_out(output: &str, name: &str, childs: Vec<WatchContent>) -> WatchContent {
    node(NodeTypes::GroupOut(output.to_string()), name, childs)
}

fn fight() -> WatchContent {
    group_in(
        "fight",
        "enter",
        vec![node(
            NodeTypes::Flow,
            "choose",
            vec![
                group_out("win", "won", vec![leaf("cheer")]),
                group_out("lose", "lost", vec![leaf("flee")]),
            ],
        )],
    )
}

fn begin(childs: Vec<GroupContent>) -> GroupContent {
    GroupContent {
        watch_content: leaf("begin"),
        extra_data: ExtraData::GroupBegin,
        childs,
        address: vec![],
    }
}

fn names(list: &[GroupContent]) -> Vec<&str> {
    list.iter().map(|g| g.watch_content.name.as_str()).collect()
}

fn strings(list: &[&str]) -> Vec<String> {
    list.iter().map(|s| s.to_string()).collect()
}

#[test]
fn without_childs_keeps_the_node() {
    let mut tree = fight();
    tree.comment = Some("why".to_string());
    tree.watch_state = WatchState::Failed;
    let bare = tree.without_childs();
    assert_eq!(bare.node_type, NodeTypes::GroupIn("fight".to_string()));
    assert_eq!(bare.name, "enter");
    assert_eq!(bare.watch_state, WatchState::Failed);
    assert_eq!(bare.comment, Some("why".to_string()));
    assert!(bare.childs.is_empty());
    assert_eq!(tree.childs.len(), 1);
}

#[test]
fn clone_copies_the_whole_tree() {
    let copy = fight().clone();
    assert_eq!(format!("{:?}", copy), format!("{:?}", fight()));
}

#[test]
fn caption_is_in_upper_case() {
    assert_eq!(leaf("straße é").caption().name, "STRASSE É");
    assert_eq!(leaf("x").captioned("Y".to_string()).name, "Y");
}

#[test]
fn a_closed_group_lists_its_outputs() {
    let list = GroupContent::get_group(&vec![leaf("a"), fight()], 0, vec![4]);
    assert_eq!(names(&list), vec!["A", "ENTER"]);
    assert_eq!(list[0].address, vec![4, 0]);
    assert_eq!(list[1].address, vec![4, 1]);
    assert_eq!(names(&list[1].childs), vec!["WON", "LOST"]);
    assert_eq!(list[1].childs[1].address, vec![4, 1, 0, 1]);
    assert_eq!(names(&list[1].childs[1].childs), vec!["FLEE"]);
    assert_eq!(list[1].childs[1].childs[0].address, vec![4, 1, 0, 1, 0]);
}

#[test]
fn an_open_group_ends_at_its_outputs() {
    let list = GroupContent::get_group(&fight().childs, 0, vec![]);
    assert_eq!(names(&list), vec!["CHOOSE"]);
    assert_eq!(names(&list[0].childs), vec!["WON", "LOST"]);
    assert!(list[0].childs[0].childs.is_empty());
}

#[test]
fn groups_within_a_closed_group_are_hidden() {
    let inner = group_in(
        "inner",
        "in",
        vec![group_out("on", "on", vec![group_out("end", "end", vec![leaf("after")])])],
    );
    let list = GroupContent::get_group(&vec![group_in("outer", "out", vec![inner])], 0, vec![]);
    assert_eq!(names(&list), vec!["OUT"]);
    assert_eq!(names(&list[0].childs), vec!["END"]);
    assert_eq!(names(&list[0].childs[0].childs), vec!["AFTER"]);
}

#[test]
fn listing_can_begin_inside_or_outside() {
    let nodes = vec![group_out("win", "won", vec![leaf("cheer")]), leaf("other")];
    let list = GroupContent::get_group(&nodes, -1, vec![]);
    assert_eq!(names(&list), vec!["WON"]);
    assert_eq!(names(&list[0].childs), vec!["CHEER"]);
    let outside = GroupContent::get_group(&vec![fight(), leaf("other")], 1, vec![]);
    assert_eq!(names(&outside), vec!["ENTER"]);
    assert_eq!(names(&outside[0].childs), vec!["CHOOSE"]);
}

#[test]
fn outputs_move_into_the_group() {
    let list = GroupContent::get_group(&vec![fight()], 0, vec![]);
    let shown = begin(list);
    assert!(shown.has_known_outputs());
    let shown = GroupContent::calculate_group_outputs(shown);
    let group = &shown.childs[0];
    match &group.extra_data {
        ExtraData::GroupNode(outputs) => assert_eq!(outputs, &strings(&["win", "lose"])),
        _ => panic!("not a group"),
    }
    assert_eq!(names(&group.childs), vec!["CHEER", "FLEE"]);
    assert_eq!(group.drawn_childs(), 2);
    assert_eq!(shown.get_height(), 180 + 40);
    assert_eq!(group.childs[0].get_height(), 60);
}

#[test]
fn a_group_with_another_node_below_has_no_known_outputs() {
    let list = GroupContent::get_group(
        &vec![group_out("win", "won", vec![group_in("loot", "loot", vec![leaf("gold")])])],
        0,
        vec![],
    );
    assert_eq!(names(&list[0].childs), vec!["LOOT"]);
    assert_eq!(names(&list[0].childs[0].childs), vec!["GOLD"]);
    assert!(!begin(list).has_known_outputs());
}

#[test]
fn group_without_childs_keeps_the_rest() {
    let list = GroupContent::get_group(&vec![fight()], 0, vec![7]);
    let bare = list[0].without_childs();
    assert_eq!(bare.address, vec![7, 0]);
    assert_eq!(bare.watch_content.name, "ENTER");
    assert!(matches!(bare.extra_data, ExtraData::Empty));
    assert!(bare.childs.is_empty());
}

#[test]
fn the_count_of_groups_has_a_range() {
    let out = vec![group_out("win", "won", vec![])];
    let within = vec![group_in("fight", "fight", vec![])];
    assert!(!count_stays_in_range(&out, i32::MAX));
    assert!(count_stays_in_range(&out, i32::MAX - 1));
    assert!(!count_stays_in_range(&within, i32::MIN));
    assert!(count_stays_in_range(&within, i32::MIN + 1));
    assert!(!count_stays_in_range(&vec![leaf("a"), group_out("a", "a", out)], i32::MAX - 1));
    assert!(count_stays_in_range(&vec![fight()], 0));
}

#[test]
fn nodes_that_are_no_groups_do_not_count() {
    let chain = vec![node(NodeTypes::Flow, "a", vec![node(NodeTypes::Flow, "b", vec![leaf("c")])])];
    assert!(count_stays_in_range(&chain, i32::MAX));
    assert!(count_stays_in_range(&chain, i32::MIN));
    assert!(GroupContent::get_group(&chain, i32::MAX, vec![]).is_empty());
    let list = GroupContent::get_group(&chain, 0, vec![]);
    assert!(list[0].has_height());
    assert_eq!(list[0].get_height(), 3 * 60 + 2 * 20);
}

#[test]
fn shapes_by_kind() {
    let shown = GroupContent::calculate_group_outputs(begin(GroupContent::get_group(
        &vec![
            fight(),
            node(NodeTypes::Event("tick".to_string()), "wait", vec![]),
            leaf("act"),
            node(NodeTypes::Flow, "all", vec![]),
            node(NodeTypes::Decorator, "not", vec![]),
            group_out("end", "done", vec![]),
        ],
        0,
        vec![],
    )));
    match shown.childs[0].shape() {
        NodeShape::Group { name, group_name, outputs } => {
            assert_eq!((name.as_str(), group_name.as_str()), ("ENTER", "fight"));
            assert_eq!(outputs, "win | lose");
        }
        other => panic!("{:?}", other),
    }
    assert_eq!(shown.childs[0].lines(), strings(&["win | lose", "fight", "ENTER"]));
    assert_eq!(shown.childs[1].lines(), strings(&["tick", "WAIT"]));
    assert_eq!(shown.childs[2].lines(), strings(&["ACT"]));
    assert!(matches!(shown.childs[3].shape(), NodeShape::Plain { .. }));
    assert!(matches!(shown.childs[4].shape(), NodeShape::Plain { .. }));
    assert_eq!(shown.childs[5].lines(), strings(&["end", "DONE"]));
    let open = GroupContent {
        watch_content: fight().caption(),
        extra_data: ExtraData::GroupBegin,
        childs: vec![],
        address: vec![],
    };
    match open.shape() {
        NodeShape::Described { name, description } => {
            assert_eq!((name.as_str(), description.as_str()), ("ENTER", "fight"));
        }
        other => panic!("{:?}", other),
    }
}

#[test]
fn edges_by_count_and_kind() {
    let shown = GroupContent::calculate_group_outputs(begin(GroupContent::get_group(
        &vec![fight(), leaf("a"), leaf("b")],
        0,
        vec![],
    )));
    assert!(matches!(shown.edges(), EdgeLayout::Spread(3)));
    assert!(matches!(shown.childs[1].edges(), EdgeLayout::Centered(0)));
    match shown.childs[0].edges() {
        EdgeLayout::UnderOutputs(outputs) => assert_eq!(outputs, strings(&["win", "lose"])),
        other => panic!("{:?}", other),
    }
}

#[test]
fn only_as_many_as_outputs_are_drawn() {
    let crowded = group_in("g", "g", vec![group_out("one", "one", vec![leaf("a"), leaf("b")])]);
    let shown = GroupContent::calculate_group_outputs(begin(GroupContent::get_group(
        &vec![crowded],
        0,
        vec![],
    )));
    assert_eq!(names(&shown.childs[0].childs), vec!["A", "B"]);
    assert_eq!(shown.childs[0].drawn_childs(), 1);
}

#[test]
fn joining() {
    assert_eq!(join(&vec![], " | "), "");
    assert_eq!(join(&strings(&["a"]), " | "), "a");
    assert_eq!(join(&strings(&["a", "", "ç"]), " | "), ["a", "", "ç"].join(" | "));
}

#[test]
fn spans_hold_the_names() {
    let outputs = strings(&["win", "şah", ""]);
    let line: Vec<char> = join(&outputs, " | ").chars().collect();
    let spans = output_spans(&outputs, " | ", line.len());
    assert_eq!(spans[0], Span { left: 0, right: 3 });
    assert_eq!(spans[1], Span { left: 6, right: 9 });
    assert_eq!(spans[2], Span { left: 12, right: 12 });
    for (span, output) in spans.iter().zip(&outputs) {
        let part: String = line[span.left..span.right].iter().collect();
        assert_eq!(&part, output);
    }
}

#[test]
fn spans_of_a_short_line_end_at_its_beginning() {
    let outputs = strings(&["win", "lose"]);
    let spans = output_spans(&outputs, " | ", 5);
    assert_eq!(spans[1], Span { left: 1, right: 5 });
    assert_eq!(spans[0], Span { left: 0, right: 0 });
    let none = output_spans(&outputs, " | ", 0);
    assert_eq!(none[0], Span { left: 0, right: 0 });
    assert_eq!(none[1], Span { left: 0, right: 0 });
}
