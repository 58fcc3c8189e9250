use dog_bot_template::children::{get_all_children_channels, ChannelNode};

fn node(id: u64, parent_id: Option<u64>) -> ChannelNode {
    ChannelNode { id, parent_id }
}

fn ids(nodes: &[ChannelNode]) -> Vec<u64> {
    nodes.iter().map(|n| n.id).collect()
}

#[test]
fn expands_root_and_descendants_level_by_level() {
    // root R with children {C1, C2}, and C1 with child {C3}
    let r = node(1, None);
    let snapshot = vec![
        node(2, Some(1)), // C1
        node(3, Some(1)), // C2
        node(4, Some(2)), // C3
        node(9, None),    // unrelated channel
    ];
    let expanded = get_all_children_channels(&snapshot, &r);
    assert_eq!(ids(&expanded), vec![1, 2, 3, 4]);
}

#[test]
fn childless_channel_expands_to_itself() {
    let r = node(42, Some(7));
    let snapshot = vec![node(7, None), node(8, Some(7))];
    let expanded = get_all_children_channels(&snapshot, &r);
    assert_eq!(ids(&expanded), vec![42]);
}

#[test]
fn levels_keep_snapshot_order() {
    let r = node(1, None);
    let snapshot = vec![
        node(5, Some(1)),
        node(2, Some(1)),
        node(6, Some(2)),
        node(3, Some(5)),
    ];
    let expanded = get_all_children_channels(&snapshot, &r);
    // level one in snapshot order, then level two in snapshot order
    assert_eq!(ids(&expanded), vec![1, 5, 2, 6, 3]);
}

#[test]
fn deep_chain_is_followed_to_the_leaf() {
    let r = node(1, None);
    let snapshot = vec![node(2, Some(1)), node(3, Some(2)), node(4, Some(3)), node(5, Some(4))];
    let expanded = get_all_children_channels(&snapshot, &r);
    assert_eq!(ids(&expanded), vec![1, 2, 3, 4, 5]);
}
