use mesh_browser::layout::generate_positions;
use mesh_browser::loading::{LoadingData, LoadingState, PipelinesReady};
use mesh_browser::loading::update_loading_data;
use mesh_browser::meshes_tree::{MeshTree, MeshTreeNode, MeshTreeNodeSerde};
use mesh_browser::navigation::{
    get_render_mode, select_child, select_root, update_current_sys, update_window_size,
    CameraType, MeshRenderMode, MeshTreeRes, Visualization,
};

fn leaf(url: &str) -> MeshTreeNodeSerde {
    MeshTreeNodeSerde::new(url.to_string(), Vec::new())
}

fn node(url: &str, children: Vec<MeshTreeNodeSerde>) -> MeshTreeNodeSerde {
    MeshTreeNodeSerde::new(url.to_string(), children)
}

/// r [ B, C [ C1 ], D [ D1, D2 ] ] at positions r=0, B=1, C=2, C1=3, D=4, D1=5, D2=6.
fn sample() -> MeshTree {
    MeshTree::new(&node(
        "r",
        vec![leaf("B"), node("C", vec![leaf("C1")]), node("D", vec![leaf("D1"), leaf("D2")])],
    ))
}

fn leaf_url(mode: MeshRenderMode) -> String {
    match mode {
        MeshRenderMode::Leaf { url } => url,
        MeshRenderMode::Subtree { .. } => panic!("a subtree where a leaf is due"),
    }
}

fn subtree_urls(mode: MeshRenderMode) -> Vec<(usize, String)> {
    match mode {
        MeshRenderMode::Subtree { urls } => urls,
        MeshRenderMode::Leaf { .. } => panic!("a leaf where a subtree is due"),
    }
}

#[test]
fn a_node_without_children_is_a_leaf_with_its_own_url() {
    let tree = sample();
    assert_eq!(leaf_url(get_render_mode(&tree, 1)), "B");
    assert_eq!(leaf_url(get_render_mode(&tree, 3)), "C1");
    let alone = MeshTree::new(&leaf("only"));
    assert_eq!(leaf_url(get_render_mode(&alone, 0)), "only");
}

#[test]
fn a_node_with_one_childless_child_collapses_to_that_child() {
    let tree = MeshTree::new(&node("root", vec![leaf("A")]));
    assert_eq!(leaf_url(get_render_mode(&tree, 0)), "A");
    let tree = sample();
    assert_eq!(leaf_url(get_render_mode(&tree, 2)), "C1");
}

#[test]
fn a_node_with_several_children_lists_them_in_order() {
    let tree = MeshTree::new(&node("root", vec![leaf("B"), leaf("C"), leaf("D")]));
    assert_eq!(
        subtree_urls(get_render_mode(&tree, 0)),
        vec![(0, "B".to_string()), (1, "C".to_string()), (2, "D".to_string())]
    );
    let tree = sample();
    assert_eq!(
        subtree_urls(get_render_mode(&tree, 0)),
        vec![(0, "B".to_string()), (1, "C".to_string()), (2, "D".to_string())]
    );
    assert_eq!(
        subtree_urls(get_render_mode(&tree, 4)),
        vec![(0, "D1".to_string()), (1, "D2".to_string())]
    );
}

#[test]
fn a_single_child_with_children_of_its_own_does_not_collapse() {
    let tree = MeshTree::new(&node("root", vec![node("A", vec![leaf("A1")])]));
    assert_eq!(subtree_urls(get_render_mode(&tree, 0)), vec![(0, "A".to_string())]);
}

#[test]
fn showing_the_root_registers_one_load_for_each_child() {
    let res = MeshTreeRes::new(sample());
    let mut data = LoadingData::new(5);
    let mut state = LoadingState::Ready;
    data.add_asset(77);
    let shown = update_current_sys(&res, &mut data, &mut state, 1, 1);
    assert_eq!(state, LoadingState::Loading);
    assert_eq!(data.pending_assets(), vec![1, 2, 4]);
    assert_eq!(data.confirmation_frames_count(), 0);
    assert_eq!(shown.camera(), Some(CameraType::Fixed));
    match shown {
        Visualization::Grid { meshes, scale } => {
            let layout = generate_positions(3, 1, 1);
            assert_eq!(meshes.len(), 3);
            let expected = [(1usize, 0usize, "B"), (2, 1, "C"), (4, 2, "D")];
            for (k, (asset, child_index, url)) in expected.iter().enumerate() {
                assert_eq!(meshes[k].asset, *asset);
                assert_eq!(meshes[k].child_index, *child_index);
                assert_eq!(meshes[k].url, *url);
                assert_eq!(meshes[k].position, layout.positions[k]);
            }
            assert_eq!(scale, layout.scale);
            assert_eq!((layout.rows, layout.cols), (2, 2));
        }
        other => panic!("a grid is due, not {:?}", other),
    }
}

#[test]
fn selecting_a_leaf_registers_its_one_load() {
    let mut res = MeshTreeRes::new(sample());
    let mut data = LoadingData::new(5);
    let mut state = LoadingState::Ready;
    update_current_sys(&res, &mut data, &mut state, 3, 4);
    let shown = select_child(&mut res, &mut data, &mut state, 0, 3, 4);
    assert_eq!(res.current(), Some(1));
    assert_eq!(data.pending_assets(), vec![1]);
    assert_eq!(state, LoadingState::Loading);
    assert_eq!(shown.camera(), Some(CameraType::Rotating));
    match shown {
        Visualization::Single { asset, url } => {
            assert_eq!(asset, 1);
            assert_eq!(url, "B");
        }
        other => panic!("a single mesh is due, not {:?}", other),
    }
}

#[test]
fn a_collapsed_node_loads_the_mesh_of_its_child() {
    let mut res = MeshTreeRes::new(sample());
    let mut data = LoadingData::new(5);
    let mut state = LoadingState::Ready;
    let shown = select_child(&mut res, &mut data, &mut state, 1, 1, 1);
    assert_eq!(res.current(), Some(2));
    assert_eq!(data.pending_assets(), vec![3]);
    match shown {
        Visualization::Single { asset, url } => {
            assert_eq!(asset, 3);
            assert_eq!(url, "C1");
        }
        other => panic!("a single mesh is due, not {:?}", other),
    }
}

#[test]
fn a_selection_beyond_the_children_is_ignored() {
    let mut res = MeshTreeRes::new(sample());
    let mut data = LoadingData::new(5);
    let mut state = LoadingState::Ready;
    update_current_sys(&res, &mut data, &mut state, 1, 1);
    for _ in 0..5 {
        update_loading_data(&mut data, &mut state, &vec![1, 2], &PipelinesReady(true));
    }
    assert_eq!(data.pending_assets(), vec![4]);
    let state_before = state;
    for index in [3usize, 4, 100, usize::MAX] {
        let shown = select_child(&mut res, &mut data, &mut state, index, 1, 1);
        assert!(matches!(shown, Visualization::Nothing));
        assert_eq!(shown.camera(), None);
        assert_eq!(res.current(), Some(0));
        assert_eq!(data.pending_assets(), vec![4]);
        assert_eq!(state, state_before);
    }
    // a leaf has no child to select
    select_child(&mut res, &mut data, &mut state, 0, 1, 1);
    assert_eq!(res.current(), Some(1));
    let pending = data.pending_assets();
    let shown = select_child(&mut res, &mut data, &mut state, 0, 1, 1);
    assert!(matches!(shown, Visualization::Nothing));
    assert_eq!(res.current(), Some(1));
    assert_eq!(data.pending_assets(), pending);
}

#[test]
fn moving_abandons_the_loads_of_the_previous_position() {
    let mut res = MeshTreeRes::new(sample());
    let mut data = LoadingData::new(5);
    let mut state = LoadingState::Ready;
    update_current_sys(&res, &mut data, &mut state, 1, 1);
    assert_eq!(data.pending_assets(), vec![1, 2, 4]);
    select_child(&mut res, &mut data, &mut state, 2, 1, 1);
    assert_eq!(res.current(), Some(4));
    assert_eq!(data.pending_assets(), vec![5, 6]);
    // a late completion of an abandoned load changes nothing
    data.mark_complete(1);
    data.mark_complete(2);
    assert_eq!(data.pending_assets(), vec![5, 6]);
    update_loading_data(&mut data, &mut state, &vec![4], &PipelinesReady(true));
    assert_eq!(data.pending_assets(), vec![5, 6]);
    assert_eq!(state, LoadingState::Loading);
}

#[test]
fn selecting_the_root_goes_back_to_the_top() {
    let mut res = MeshTreeRes::new(sample());
    let mut data = LoadingData::new(5);
    let mut state = LoadingState::Ready;
    select_child(&mut res, &mut data, &mut state, 2, 1, 1);
    select_child(&mut res, &mut data, &mut state, 1, 1, 1);
    assert_eq!(res.current(), Some(6));
    let shown = select_root(&mut res, &mut data, &mut state, 1, 1);
    assert_eq!(res.current(), Some(0));
    assert_eq!(data.pending_assets(), vec![1, 2, 4]);
    assert_eq!(state, LoadingState::Loading);
    assert!(matches!(shown, Visualization::Grid { .. }));
}

#[test]
fn a_position_that_the_tree_does_not_have_shows_nothing() {
    let mut res = MeshTreeRes::at(sample(), 7);
    assert_eq!(res.current(), None);
    let mut data = LoadingData::new(5);
    let mut state = LoadingState::Ready;
    data.add_asset(9);
    let shown = update_current_sys(&res, &mut data, &mut state, 1, 1);
    assert!(matches!(shown, Visualization::Nothing));
    assert_eq!(data.pending_assets(), vec![9]);
    assert_eq!(state, LoadingState::Ready);
    let shown = select_child(&mut res, &mut data, &mut state, 0, 1, 1);
    assert!(matches!(shown, Visualization::Nothing));
    assert_eq!(res.current(), None);
    assert!(update_window_size(&res, 1, 1).is_none());
    assert!(!res.move_to_child(0));
    res.move_to_root();
    assert_eq!(res.current(), Some(0));
}

#[test]
fn resizing_lays_a_grid_out_again_and_loads_nothing() {
    let mut res = MeshTreeRes::new(sample());
    let mut data = LoadingData::new(5);
    let mut state = LoadingState::Ready;
    update_current_sys(&res, &mut data, &mut state, 1, 1);
    data.mark_complete(1);
    let layout = update_window_size(&res, 1, 3).unwrap();
    let expected = generate_positions(3, 1, 3);
    assert_eq!((layout.rows, layout.cols), (1, 3));
    assert_eq!(layout.positions, expected.positions);
    assert_eq!(layout.scale, expected.scale);
    assert_eq!(data.pending_assets(), vec![2, 4]);
    // a single mesh is not laid out
    select_child(&mut res, &mut data, &mut state, 0, 1, 1);
    assert!(update_window_size(&res, 1, 3).is_none());
}

#[test]
fn the_tree_of_a_resource_is_the_one_it_was_made_with() {
    let tree = MeshTreeNode::from_json(r#"{"url": "r", "children": [{"url": "a"}, {"url": "b"}]}"#).unwrap();
    let res = MeshTreeRes::new(tree);
    assert_eq!(res.root().len(), 3);
    assert_eq!(res.current(), Some(0));
    assert_eq!(res.root().get(2).unwrap().url, "b");
}
