//! Where in the tree the viewer stands, what is shown there, and what has to
//! be loaded and placed when the position changes or the window is resized.

use crate::layout::{
    cell_scale, generate_positions, grid_cols, grid_rows, is_cell_position, is_layout_of, parts,
    GridLayout, GridPosition, Ratio,
};
use crate::loading::{LoadingData, LoadingModel, LoadingState};
use crate::meshes_tree::{MeshTree, NodeModel};
use vstd::prelude::*;

verus! {

/// How the camera behaves: free to orbit a single mesh, or fixed in front of
/// a grid of them.
#[derive(Clone, Copy, Debug, PartialEq, Eq, Structural)]
pub enum CameraType {
    Rotating,
    Fixed,
}

/// What a position shows: one mesh, or several to choose from, each with the
/// index under which its node is listed.
#[derive(Debug)]
pub enum MeshRenderMode {
    Leaf { url: String },
    Subtree { urls: Vec<(usize, String)> },
}

/// What a render mode holds.
pub enum RenderModeModel {
    Leaf { url: Seq<char> },
    Subtree { urls: Seq<(int, Seq<char>)> },
}

impl View for MeshRenderMode {
    type V = RenderModeModel;

    open spec fn view(&self) -> RenderModeModel {
        match self {
            MeshRenderMode::Leaf { url } => RenderModeModel::Leaf { url: url@ },
            MeshRenderMode::Subtree { urls } => RenderModeModel::Subtree {
                urls: urls@.map_values(|entry: (usize, String)| (entry.0 as int, entry.1@)),
            },
        }
    }
}

/// The node at `position` shows a single mesh: it has no children, or it has
/// one child and that child has none.
pub open spec fn shows_single(tree: Seq<NodeModel>, position: int) -> bool {
    let node = tree[position];
    node.children.len() == 0 || (node.children.len() == 1 && tree[node.children[0]].children.len()
        == 0)
}

/// The node whose mesh is shown where `shows_single` holds: the node itself
/// where it has no children, else its only child.
pub open spec fn single_node(tree: Seq<NodeModel>, position: int) -> int {
    if tree[position].children.len() == 0 {
        position
    } else {
        tree[position].children[0]
    }
}

/// The render mode of the node at `position`.
///
/// A node without children is a leaf with its own URL. A node whose only
/// child has no children is a leaf with that child's URL. Every other node
/// is a subtree that lists each child, in order, as its index and its URL.
pub open spec fn render_mode(tree: Seq<NodeModel>, position: int) -> RenderModeModel {
    if shows_single(tree, position) {
        RenderModeModel::Leaf { url: tree[single_node(tree, position)].url }
    } else {
        RenderModeModel::Subtree {
            urls: Seq::new(
                tree[position].children.len(),
                |k: int| (k, tree[tree[position].children[k]].url),
            ),
        }
    }
}

/// The render mode of the node at `position` of `tree`: see `render_mode`.
pub fn get_render_mode(tree: &MeshTree, position: usize) -> (mode: MeshRenderMode)
    requires
        position < tree@.len(),
    ensures
        mode@ == render_mode(tree@, position as int),
        ({
            let node = tree@[position as int];
            let only = tree@[node.children[0]];
            &&& node.children.len() == 0 ==> mode@ == (RenderModeModel::Leaf { url: node.url })
            &&& node.children.len() == 1 && only.children.len() == 0 ==> mode@ == (
            RenderModeModel::Leaf { url: only.url })
            &&& !shows_single(tree@, position as int) ==> {
                &&& mode@ is Subtree
                &&& mode@->urls.len() == node.children.len()
                &&& forall|k: int|
                    0 <= k < node.children.len() ==> (#[trigger] mode@->urls[k]) == (
                        k,
                        tree@[node.children[k]].url,
                    )
            }
        }),
{
    let node = tree.get(position).unwrap();
    let count = node.children.len();
    if count == 0 {
        return MeshRenderMode::Leaf { url: node.url.clone() };
    }
    assert(node.children@.map_values(|c: usize| c as int) == tree@[position as int].children);
    if count == 1 {
        let only = tree.child(position, 0).unwrap();
        let child = tree.get(only).unwrap();
        if child.children.len() == 0 {
            return MeshRenderMode::Leaf { url: child.url.clone() };
        }
    }
    let mut urls: Vec<(usize, String)> = Vec::new();
    let mut index: usize = 0;
    while index < count
        invariant
            position < tree@.len(),
            count == tree@[position as int].children.len(),
            index <= count,
            urls@.len() == index,
            forall|k: int|
                0 <= k < index ==> (#[trigger] urls@[k]).0 == k && urls@[k].1@
                    == tree@[tree@[position as int].children[k]].url,
        decreases count - index,
    {
        let at = tree.child(position, index).unwrap();
        let child = tree.get(at).unwrap();
        urls.push((index, child.url.clone()));
        index = index + 1;
    }
    let mode = MeshRenderMode::Subtree { urls };
    assert(mode@->urls =~= render_mode(tree@, position as int)->urls);
    mode
}


/// The tree and the position in it that is shown.
#[derive(Debug)]
pub struct MeshTreeRes {
    root: MeshTree,
    current: usize,
}

/// One mesh of a grid: the load that brings it, the index under which the
/// shown node lists its node, its URL, and where it is placed.
#[derive(Debug)]
pub struct GridMesh {
    pub asset: usize,
    pub child_index: usize,
    pub url: String,
    pub position: GridPosition,
}

/// What is to be loaded and shown after the position has changed.
#[derive(Debug)]
pub enum Visualization {
    /// The position resolves to no node, or a selection was ignored: nothing
    /// is loaded and nothing changes.
    Nothing,
    /// One mesh, brought by the load `asset`.
    Single { asset: usize, url: String },
    /// Several meshes in a grid, all at the same scale.
    Grid { meshes: Vec<GridMesh>, scale: Ratio },
}

/// The loads that showing the node at `position` asks for. A load is known
/// by the position of the node whose mesh it brings: the single node shown,
/// or every child of the node.
pub open spec fn requested_assets(tree: Seq<NodeModel>, position: int) -> Set<usize> {
    if shows_single(tree, position) {
        Set::new(|asset: usize| asset == single_node(tree, position))
    } else {
        Set::new(|asset: usize| tree[position].children.contains(asset as int))
    }
}

/// `mesh` is the `k`-th mesh of the grid that shows the node at `position`
/// in a grid of `rows` by `cols` cells.
pub open spec fn is_grid_mesh(
    mesh: GridMesh,
    tree: Seq<NodeModel>,
    position: int,
    k: int,
    rows: int,
    cols: int,
    h: int,
    w: int,
) -> bool {
    &&& mesh.asset == tree[position].children[k]
    &&& mesh.child_index == k
    &&& mesh.url@ == tree[mesh.asset as int].url
    &&& is_cell_position(mesh.position, k, rows, cols, h, w)
}

/// `shown` is what showing the node at `position` in a window `w` wide and
/// `h` high asks for: the single mesh of a leaf, or one mesh for each child
/// in the order of the children, laid out as a grid for that many meshes.
pub open spec fn is_visualization_of(
    shown: Visualization,
    tree: Seq<NodeModel>,
    position: int,
    h: int,
    w: int,
) -> bool {
    match shown {
        Visualization::Nothing => false,
        Visualization::Single { asset, url } => {
            &&& shows_single(tree, position)
            &&& asset == single_node(tree, position)
            &&& url@ == tree[single_node(tree, position)].url
        },
        Visualization::Grid { meshes, scale } => {
            let n = tree[position].children.len() as int;
            let rows = grid_rows(n, h, w);
            let cols = grid_cols(n, h, w);
            &&& !shows_single(tree, position)
            &&& meshes@.len() == n
            &&& forall|k: int|
                0 <= k < n ==> is_grid_mesh(
                    #[trigger] meshes@[k],
                    tree,
                    position,
                    k,
                    rows,
                    cols,
                    h,
                    w,
                )
            &&& parts(scale) == cell_scale(rows, cols, h, w)
        },
    }
}

impl Visualization {
    /// The camera that goes with what is shown: free to orbit a single mesh,
    /// fixed in front of a grid, and none where nothing is shown.
    pub fn camera(&self) -> (camera: Option<CameraType>)
        ensures
            camera == match self {
                Visualization::Nothing => None::<CameraType>,
                Visualization::Single { .. } => Some(CameraType::Rotating),
                Visualization::Grid { .. } => Some(CameraType::Fixed),
            },
    {
        match self {
            Visualization::Nothing => None,
            Visualization::Single { .. } => Some(CameraType::Rotating),
            Visualization::Grid { .. } => Some(CameraType::Fixed),
        }
    }
}

impl MeshTreeRes {
    /// The tree that is browsed.
    pub closed spec fn tree(&self) -> Seq<NodeModel> {
        self.root@
    }

    /// The position that is shown.
    pub closed spec fn position(&self) -> int {
        self.current as int
    }

    /// Whether the position resolves to a node of the tree.
    pub open spec fn resolves(&self) -> bool {
        self.position() < self.tree().len()
    }

    /// The position of the child that the shown node lists at `child_index`,
    /// or `None` where the position resolves to no node or the node lists
    /// fewer children.
    pub open spec fn child_at(&self, child_index: int) -> Option<int> {
        if self.resolves() && 0 <= child_index < self.tree()[self.position()].children.len() {
            Some(self.tree()[self.position()].children[child_index])
        } else {
            None
        }
    }

    /// Stands at the root of `root`.
    pub fn new(root: MeshTree) -> (res: MeshTreeRes)
        ensures
            res.tree() == root@,
            res.position() == 0,
            res.resolves(),
    {
        let res = MeshTreeRes { root, current: 0 };
        res.root.len();
        res
    }

    /// Stands at `current` in `root`, a position that may come from
    /// elsewhere and that `root` need not have.
    pub fn at(root: MeshTree, current: usize) -> (res: MeshTreeRes)
        ensures
            res.tree() == root@,
            res.position() == current,
    {
        MeshTreeRes { root, current }
    }

    /// The tree that is browsed.
    pub fn root(&self) -> (root: &MeshTree)
        ensures
            root@ == self.tree(),
    {
        &self.root
    }

    /// The position that is shown, or `None` where it resolves to no node.
    pub fn current(&self) -> (current: Option<usize>)
        ensures
            current == if self.resolves() {
                Some(self.position() as usize)
            } else {
                None
            },
    {
        if self.current < self.root.len() {
            Some(self.current)
        } else {
            None
        }
    }

    /// Moves to the child that the shown node lists at `child_index`, and
    /// says whether it did. Where the position resolves to no node, or the
    /// node lists fewer children, nothing changes.
    pub fn move_to_child(&mut self, child_index: usize) -> (moved: bool)
        ensures
            final(self).tree() == old(self).tree(),
            moved == old(self).child_at(child_index as int).is_some(),
            moved ==> Some(final(self).position()) == old(self).child_at(child_index as int)
                && final(self).resolves(),
            !moved ==> *final(self) == *old(self),
    {
        match self.root.child(self.current, child_index) {
            Some(child) => {
                self.current = child;
                true
            },
            None => false,
        }
    }

    /// Moves to the root.
    pub fn move_to_root(&mut self)
        ensures
            final(self).tree() == old(self).tree(),
            final(self).position() == 0,
            final(self).resolves(),
    {
        self.root.len();
        self.current = 0;
    }
}

/// Works out what to show at the current position, and starts over the
/// loading of it.
///
/// Where the position resolves to no node nothing changes and nothing is to
/// be shown. Otherwise the loads still pending are abandoned, the loads for
/// what is shown now are registered in their place, and the status is
/// `Loading`.
pub fn update_current_sys(
    mesh_tree: &MeshTreeRes,
    loading_data: &mut LoadingData,
    loading_state: &mut LoadingState,
    window_height: u16,
    window_width: u16,
) -> (shown: Visualization)
    requires
        window_height >= 1,
        window_width >= 1,
    ensures
        shown is Nothing <==> !mesh_tree.resolves(),
        !mesh_tree.resolves() ==> {
            &&& *final(loading_data) == *old(loading_data)
            &&& *final(loading_state) == *old(loading_state)
        },
        mesh_tree.resolves() ==> {
            &&& is_visualization_of(
                shown,
                mesh_tree.tree(),
                mesh_tree.position(),
                window_height as int,
                window_width as int,
            )
            &&& final(loading_data)@ == (LoadingModel {
                pending: requested_assets(mesh_tree.tree(), mesh_tree.position()),
                target: old(loading_data)@.target,
                count: 0,
            })
            &&& *final(loading_state) == LoadingState::Loading
        },
{
    let position = match mesh_tree.current() {
        Some(position) => position,
        None => {
            return Visualization::Nothing;
        },
    };
    let tree = &mesh_tree.root;
    let ghost nodes = tree@;
    loading_data.clear();
    *loading_state = LoadingState::Loading;
    let mode = get_render_mode(tree, position);
    let ghost mode_model = mode@;
    match mode {
        MeshRenderMode::Leaf { url } => {
            let asset = match tree.child(position, 0) {
                Some(only) => only,
                None => position,
            };
            loading_data.add_asset(asset);
            assert(loading_data@.pending =~= requested_assets(nodes, position as int));
            Visualization::Single { asset, url }
        },
        MeshRenderMode::Subtree { urls } => {
            let count = urls.len();
            let layout = generate_positions(count, window_height, window_width);
            let mut meshes: Vec<GridMesh> = Vec::new();
            let mut index: usize = 0;
            let ghost listed = nodes[position as int].children;
            assert forall|k: int| 0 <= k < count implies (#[trigger] urls@[k]).0 == k && urls@[k].1@
                == nodes[listed[k]].url by {
                assert(mode_model->urls[k] == (urls@[k].0 as int, urls@[k].1@));
            }
            assert(loading_data@.pending =~= Set::new(
                |asset: usize| listed.take(0).contains(asset as int),
            ));
            while index < count
                invariant
                    index <= count,
                    position < nodes.len(),
                    nodes == tree@,
                    listed == nodes[position as int].children,
                    count == listed.len(),
                    count == urls@.len(),
                    forall|k: int|
                        0 <= k < count ==> (#[trigger] urls@[k]).0 == k && urls@[k].1@
                            == nodes[listed[k]].url,
                    is_layout_of(layout, count as int, window_height as int, window_width as int),
                    meshes@.len() == index,
                    forall|k: int|
                        0 <= k < index ==> is_grid_mesh(
                            #[trigger] meshes@[k],
                            nodes,
                            position as int,
                            k,
                            layout.rows as int,
                            layout.cols as int,
                            window_height as int,
                            window_width as int,
                        ),
                    loading_data@.target == old(loading_data)@.target,
                    loading_data@.count == 0,
                    loading_data@.pending == Set::new(
                        |asset: usize| listed.take(index as int).contains(asset as int),
                    ),
                decreases count - index,
            {
                let asset = tree.child(position, index).unwrap();
                let ghost pending = loading_data@.pending;
                loading_data.add_asset(asset);
                meshes.push(
                    GridMesh {
                        asset,
                        child_index: urls[index].0,
                        url: urls[index].1.clone(),
                        position: layout.positions[index],
                    },
                );
                proof {
                    let before = listed.take(index as int);
                    let after = listed.take(index + 1);
                    assert(after =~= before.push(asset as int));
                    assert forall|a: usize| #[trigger]
                        pending.insert(asset).contains(a) <==> after.contains(a as int) by {
                        if before.contains(a as int) {
                            let i = choose|i: int| 0 <= i < before.len() && before[i] == a as int;
                            assert(after[i] == a as int);
                        }
                        if a == asset {
                            assert(after[index as int] == a as int);
                        }
                        if after.contains(a as int) {
                            let i = choose|i: int| 0 <= i < after.len() && after[i] == a as int;
                            if i < index {
                                assert(before[i] == a as int);
                            }
                        }
                    }
                    assert(loading_data@.pending =~= Set::new(
                        |asset: usize| after.contains(asset as int),
                    ));
                }
                index = index + 1;
            }
            proof {
                assert(listed.take(index as int) =~= listed);
                assert(loading_data@.pending =~= requested_assets(nodes, position as int));
            }
            Visualization::Grid { meshes, scale: layout.scale }
        },
    }
}

/// Moves to the child listed at `child_index` and shows it: see
/// `update_current_sys`. A selection that cannot be followed, because the
/// position resolves to no node or the node lists fewer children, is
/// ignored: the position stays, no load is registered or abandoned, the
/// status stays, and nothing is to be shown.
pub fn select_child(
    mesh_tree: &mut MeshTreeRes,
    loading_data: &mut LoadingData,
    loading_state: &mut LoadingState,
    child_index: usize,
    window_height: u16,
    window_width: u16,
) -> (shown: Visualization)
    requires
        window_height >= 1,
        window_width >= 1,
    ensures
        final(mesh_tree).tree() == old(mesh_tree).tree(),
        old(mesh_tree).child_at(child_index as int).is_none() ==> {
            &&& shown is Nothing
            &&& *final(mesh_tree) == *old(mesh_tree)
            &&& *final(loading_data) == *old(loading_data)
            &&& *final(loading_state) == *old(loading_state)
        },
        old(mesh_tree).child_at(child_index as int).is_some() ==> {
            &&& Some(final(mesh_tree).position()) == old(mesh_tree).child_at(child_index as int)
            &&& final(mesh_tree).resolves()
            &&& is_visualization_of(
                shown,
                final(mesh_tree).tree(),
                final(mesh_tree).position(),
                window_height as int,
                window_width as int,
            )
            &&& final(loading_data)@ == (LoadingModel {
                pending: requested_assets(final(mesh_tree).tree(), final(mesh_tree).position()),
                target: old(loading_data)@.target,
                count: 0,
            })
            &&& *final(loading_state) == LoadingState::Loading
        },
{
    if mesh_tree.move_to_child(child_index) {
        update_current_sys(mesh_tree, loading_data, loading_state, window_height, window_width)
    } else {
        Visualization::Nothing
    }
}

/// Moves to the root and shows it: see `update_current_sys`.
pub fn select_root(
    mesh_tree: &mut MeshTreeRes,
    loading_data: &mut LoadingData,
    loading_state: &mut LoadingState,
    window_height: u16,
    window_width: u16,
) -> (shown: Visualization)
    requires
        window_height >= 1,
        window_width >= 1,
    ensures
        final(mesh_tree).tree() == old(mesh_tree).tree(),
        final(mesh_tree).position() == 0,
        is_visualization_of(
            shown,
            final(mesh_tree).tree(),
            0,
            window_height as int,
            window_width as int,
        ),
        final(loading_data)@ == (LoadingModel {
            pending: requested_assets(final(mesh_tree).tree(), 0),
            target: old(loading_data)@.target,
            count: 0,
        }),
        *final(loading_state) == LoadingState::Loading,
{
    mesh_tree.move_to_root();
    update_current_sys(mesh_tree, loading_data, loading_state, window_height, window_width)
}

/// The new layout after the window has been resized: where a grid is shown,
/// the layout of as many meshes as before in the new window, and `None`
/// where a single mesh or nothing is shown. Nothing is loaded again.
pub fn update_window_size(
    mesh_tree: &MeshTreeRes,
    window_height: u16,
    window_width: u16,
) -> (layout: Option<GridLayout>)
    requires
        window_height >= 1,
        window_width >= 1,
    ensures
        match layout {
            Some(found) => mesh_tree.resolves() && !shows_single(
                mesh_tree.tree(),
                mesh_tree.position(),
            ) && is_layout_of(
                found,
                mesh_tree.tree()[mesh_tree.position()].children.len() as int,
                window_height as int,
                window_width as int,
            ),
            None => !mesh_tree.resolves() || shows_single(mesh_tree.tree(), mesh_tree.position()),
        },
{
    match mesh_tree.current() {
        None => None,
        Some(position) => match get_render_mode(&mesh_tree.root, position) {
            MeshRenderMode::Leaf { .. } => None,
            MeshRenderMode::Subtree { urls } => Some(
                generate_positions(urls.len(), window_height, window_width),
            ),
        },
    }
}

} // verus!
