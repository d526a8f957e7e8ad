//! The tree of meshes: its description as it is read from JSON, and the tree
//! built from it, in which every node knows its parent and its children.

use crate::json::{
    json_of, json_of_each, parse_value, parsed_json, value_as_array, value_as_str, value_get,
    value_is_object, Json,
};
use vstd::prelude::*;

verus! {

/// The deepest that a node may lie below the root of a description read from
/// JSON. The root has depth 0.
pub const MAX_TREE_DEPTH: usize = 32;

/// Why a description of a tree was refused.
#[derive(Clone, Copy, Debug, PartialEq, Eq, Structural)]
pub enum TreeError {
    /// The input is not JSON, or a node in it is not an object with a string
    /// under `url` and, if anything, an array under `children`.
    MalformedInput,
    /// A node lies deeper than `MAX_TREE_DEPTH`.
    DepthExceeded,
}

/// The description of a tree: a node's URL and the descriptions of its
/// children, in order.
#[derive(Debug)]
pub struct MeshTreeNodeSerde {
    pub url: String,
    pub children: Vec<MeshTreeNodeSerde>,
}

/// What a description holds.
pub struct SerdeModel {
    pub url: Seq<char>,
    pub children: Seq<SerdeModel>,
}

/// What a description holds.
pub open spec fn model_of(node: MeshTreeNodeSerde) -> SerdeModel
    decreases node, 0nat,
{
    SerdeModel { url: node.url@, children: views(node.children@) }
}

/// What each of `nodes` holds, in order.
pub open spec fn views(nodes: Seq<MeshTreeNodeSerde>) -> Seq<SerdeModel>
    decreases nodes, 1nat,
{
    if nodes.len() == 0 {
        Seq::empty()
    } else {
        views(nodes.drop_last()).push(model_of(nodes.last()))
    }
}

impl View for MeshTreeNodeSerde {
    type V = SerdeModel;

    open spec fn view(&self) -> SerdeModel {
        model_of(*self)
    }
}

/// The description that the JSON value `j` gives of a node at `depth`.
///
/// A node is an object with a string under `url`; under `children` it has
/// nothing or an array of nodes, each one level deeper. Other members are
/// ignored. What is not of this shape is `MalformedInput`, and a value in
/// the place of a node deeper than `MAX_TREE_DEPTH` is `DepthExceeded`,
/// whatever it holds. Where several things are wrong, the first in the order
/// of the document is reported.
pub open spec fn node_of_json(j: Json, depth: nat) -> Result<SerdeModel, TreeError>
    decreases MAX_TREE_DEPTH + 1 - depth, 0nat,
{
    if depth > MAX_TREE_DEPTH {
        Err(TreeError::DepthExceeded)
    } else if !(j is Object) {
        Err(TreeError::MalformedInput)
    } else {
        let members = j->Object_0;
        if !members.contains_key("url"@) || !(members["url"@] is Text) {
            Err(TreeError::MalformedInput)
        } else if members.contains_key("children"@) && !(members["children"@] is Array) {
            Err(TreeError::MalformedInput)
        } else {
            let items = if members.contains_key("children"@) {
                members["children"@]->Array_0
            } else {
                Seq::empty()
            };
            node_with(members["url"@]->Text_0, nodes_of_json(items, depth + 1))
        }
    }
}

/// The descriptions that `items` give of nodes at `depth`, in order, or the
/// error of the first item that gives none.
pub open spec fn nodes_of_json(items: Seq<Json>, depth: nat) -> Result<Seq<SerdeModel>, TreeError>
    decreases MAX_TREE_DEPTH + 1 - depth, items.len() + 1,
{
    if items.len() == 0 {
        Ok(Seq::empty())
    } else {
        match nodes_of_json(items.drop_last(), depth) {
            Err(e) => Err(e),
            Ok(nodes) => match node_of_json(items.last(), depth) {
                Err(e) => Err(e),
                Ok(node) => Ok(nodes.push(node)),
            },
        }
    }
}

/// The node with `url` and the given children, where there are children to
/// give.
pub open spec fn node_with(url: Seq<char>, children: Result<Seq<SerdeModel>, TreeError>) -> Result<
    SerdeModel,
    TreeError,
> {
    match children {
        Ok(found) => Ok(SerdeModel { url, children: found }),
        Err(e) => Err(e),
    }
}

/// No node of `m` lies deeper than `levels` below its root.
pub open spec fn within_depth(m: SerdeModel, levels: nat) -> bool
    decreases m, 0nat,
{
    m.children.len() == 0 || (levels > 0 && all_within_depth(m.children, (levels - 1) as nat))
}

/// No node of any of `children` lies deeper than `levels` below the root of
/// its description.
pub open spec fn all_within_depth(children: Seq<SerdeModel>, levels: nat) -> bool
    decreases children, 1nat,
{
    children.len() == 0 || (all_within_depth(children.drop_last(), levels) && within_depth(
        children.last(),
        levels,
    ))
}

/// A description that is read from JSON at `depth` has no node deeper than
/// `MAX_TREE_DEPTH`, counted from depth 0.
pub proof fn lemma_read_within_depth(j: Json, depth: nat)
    requires
        node_of_json(j, depth) is Ok,
    ensures
        depth <= MAX_TREE_DEPTH,
        within_depth(node_of_json(j, depth)->Ok_0, (MAX_TREE_DEPTH - depth) as nat),
    decreases MAX_TREE_DEPTH + 1 - depth, 0nat,
{
    let members = j->Object_0;
    let items = if members.contains_key("children"@) {
        members["children"@]->Array_0
    } else {
        Seq::empty()
    };
    lemma_all_read_within_depth(items, depth + 1);
}

/// Descriptions that are read from JSON at `depth` have no node deeper than
/// `MAX_TREE_DEPTH`; where there are any, `depth` itself is no deeper.
proof fn lemma_all_read_within_depth(items: Seq<Json>, depth: nat)
    requires
        depth <= MAX_TREE_DEPTH + 1,
        nodes_of_json(items, depth) is Ok,
    ensures
        nodes_of_json(items, depth)->Ok_0.len() == items.len(),
        items.len() > 0 ==> depth <= MAX_TREE_DEPTH,
        all_within_depth(nodes_of_json(items, depth)->Ok_0, (MAX_TREE_DEPTH - depth) as nat),
    decreases MAX_TREE_DEPTH + 1 - depth, items.len() + 1,
{
    if items.len() > 0 {
        lemma_all_read_within_depth(items.drop_last(), depth);
        lemma_read_within_depth(items.last(), depth);
        let before = nodes_of_json(items.drop_last(), depth)->Ok_0;
        let last = node_of_json(items.last(), depth)->Ok_0;
        assert(before.push(last).drop_last() =~= before);
    }
}

/// `views` goes item by item.
pub proof fn lemma_views(nodes: Seq<MeshTreeNodeSerde>)
    ensures
        views(nodes).len() == nodes.len(),
        forall|i: int| 0 <= i < nodes.len() ==> (#[trigger] views(nodes)[i]) == nodes[i]@,
    decreases nodes.len(),
{
    if nodes.len() > 0 {
        lemma_views(nodes.drop_last());
    }
}

/// A description holds its URL and what its children hold.
pub proof fn lemma_view_children(node: MeshTreeNodeSerde)
    ensures
        node@.url == node.url@,
        node@.children == views(node.children@),
{
}

/// Reads the node that `value` describes at `depth`, and below it its
/// children.
fn node_from_value(value: &serde_json::Value, depth: usize) -> (node: Result<
    MeshTreeNodeSerde,
    TreeError,
>)
    requires
        depth <= MAX_TREE_DEPTH + 1,
    ensures
        match node {
            Ok(found) => node_of_json(json_of(*value), depth as nat) == Ok::<
                SerdeModel,
                TreeError,
            >(found@),
            Err(e) => node_of_json(json_of(*value), depth as nat) == Err::<SerdeModel, TreeError>(
                e,
            ),
        },
    decreases MAX_TREE_DEPTH + 1 - depth,
{
    if depth > MAX_TREE_DEPTH {
        return Err(TreeError::DepthExceeded);
    }
    if !value_is_object(value) {
        return Err(TreeError::MalformedInput);
    }
    let url = match value_get(value, "url") {
        None => {
            return Err(TreeError::MalformedInput);
        },
        Some(member) => match value_as_str(member) {
            None => {
                return Err(TreeError::MalformedInput);
            },
            Some(text) => text.to_owned(),
        },
    };
    let mut children: Vec<MeshTreeNodeSerde> = Vec::new();
    match value_get(value, "children") {
        None => {
            assert(nodes_of_json(Seq::empty(), (depth + 1) as nat) == Ok::<
                Seq<SerdeModel>,
                TreeError,
            >(Seq::empty()));
            assert(views(children@) =~= Seq::empty());
        },
        Some(member) => match value_as_array(member) {
            None => {
                return Err(TreeError::MalformedInput);
            },
            Some(items) => {
                let ghost all = json_of_each(items@);
                let mut i: usize = 0;
                assert(all.take(0) =~= Seq::empty());
                assert(views(children@) =~= Seq::empty());
                assert(node_of_json(json_of(*value), depth as nat) == node_with(
                    url@,
                    nodes_of_json(all, (depth + 1) as nat),
                ));
                while i < items.len()
                    invariant
                        i <= items@.len(),
                        depth <= MAX_TREE_DEPTH,
                        all == json_of_each(items@),
                        node_of_json(json_of(*value), depth as nat) == node_with(
                            url@,
                            nodes_of_json(all, (depth + 1) as nat),
                        ),
                        nodes_of_json(all.take(i as int), (depth + 1) as nat) == Ok::<
                            Seq<SerdeModel>,
                            TreeError,
                        >(views(children@)),
                    decreases items@.len() - i,
                {
                    let ghost old_children = children@;
                    proof {
                        assert(all.take(i + 1).drop_last() =~= all.take(i as int));
                        assert(all.take(i + 1).last() == json_of(items@[i as int]));
                    }
                    match node_from_value(&items[i], depth + 1) {
                        Err(e) => {
                            proof {
                                lemma_nodes_of_json_fails(all, i + 1, (depth + 1) as nat);
                            }
                            return Err(e);
                        },
                        Ok(child) => {
                            children.push(child);
                            assert(children@.drop_last() =~= old_children);
                        },
                    }
                    i = i + 1;
                }
                assert(all.take(i as int) =~= all);
            },
        },
    }
    let node = MeshTreeNodeSerde { url, children };
    proof {
        lemma_view_children(node);
    }
    Ok(node)
}

/// Where the first `n` of `items` give no nodes, neither do all of them, and
/// the error is the same.
proof fn lemma_nodes_of_json_fails(items: Seq<Json>, n: int, depth: nat)
    requires
        0 <= n <= items.len(),
        nodes_of_json(items.take(n), depth) is Err,
    ensures
        nodes_of_json(items, depth) == nodes_of_json(items.take(n), depth),
    decreases items.len() - n,
{
    if n < items.len() {
        assert(items.take(n + 1).drop_last() =~= items.take(n));
        lemma_nodes_of_json_fails(items, n + 1, depth);
    } else {
        assert(items.take(n) =~= items);
    }
}

impl MeshTreeNodeSerde {
    /// Reads a description from a parsed JSON value: see `node_of_json`.
    pub fn from_value(value: &serde_json::Value) -> (node: Result<MeshTreeNodeSerde, TreeError>)
        ensures
            match node {
                Ok(found) => node_of_json(json_of(*value), 0) == Ok::<SerdeModel, TreeError>(
                    found@,
                ),
                Err(e) => node_of_json(json_of(*value), 0) == Err::<SerdeModel, TreeError>(e),
            },
    {
        node_from_value(value, 0)
    }

    /// Reads a description from JSON text. Text that is not JSON is
    /// `MalformedInput`; what the text holds is read as `from_value` reads
    /// it.
    pub fn parse(data: &str) -> (node: Result<MeshTreeNodeSerde, TreeError>)
        ensures
            match node {
                Ok(found) => parsed_json(data@) matches Some(j) && node_of_json(j, 0) == Ok::<
                    SerdeModel,
                    TreeError,
                >(found@),
                Err(e) => match parsed_json(data@) {
                    Some(j) => node_of_json(j, 0) == Err::<SerdeModel, TreeError>(e),
                    None => e == TreeError::MalformedInput,
                },
            },
    {
        match parse_value(data) {
            Ok(value) => MeshTreeNodeSerde::from_value(&value),
            Err(_) => Err(TreeError::MalformedInput),
        }
    }

    /// A description from its parts.
    pub fn new(url: String, children: Vec<MeshTreeNodeSerde>) -> (node: Self)
        ensures
            node.url == url,
            node.children == children,
    {
        MeshTreeNodeSerde { url, children }
    }
}


/// A node of the built tree. `parent` and `children` are positions in the
/// tree that the node belongs to: they refer to nodes and own none.
#[derive(Debug)]
pub struct MeshTreeNode {
    pub url: String,
    pub parent: Option<usize>,
    pub children: Vec<usize>,
}

/// What a node holds.
pub struct NodeModel {
    pub url: Seq<char>,
    pub parent: Option<int>,
    pub children: Seq<int>,
}

impl View for MeshTreeNode {
    type V = NodeModel;

    open spec fn view(&self) -> NodeModel {
        NodeModel {
            url: self.url@,
            parent: match self.parent {
                Some(p) => Some(p as int),
                None => None,
            },
            children: self.children@.map_values(|c: usize| c as int),
        }
    }
}

/// What each of `nodes` holds, in order.
pub open spec fn node_views(nodes: Seq<MeshTreeNode>) -> Seq<NodeModel> {
    nodes.map_values(|node: MeshTreeNode| node@)
}

/// The nodes of the tree that `m` describes, as they stand in a tree from
/// position `base` on: the root first, with the given parent, then the nodes
/// below its first child, then those below its second, and so on. Every
/// other node's parent is the position of the node under which the
/// description lists it.
pub open spec fn laid_out(m: SerdeModel, parent: Option<int>, base: int) -> Seq<NodeModel>
    decreases m, 0nat,
{
    seq![
        NodeModel { url: m.url, parent, children: child_positions(m.children, base, base + 1) },
    ] + laid_out_all(m.children, base, base + 1)
}

/// The nodes of the trees that `children` describe, one tree after the
/// other from position `start` on, each root with the parent `parent`.
pub open spec fn laid_out_all(children: Seq<SerdeModel>, parent: int, start: int) -> Seq<NodeModel>
    decreases children, 1nat,
{
    if children.len() == 0 {
        Seq::empty()
    } else {
        let before = laid_out_all(children.drop_last(), parent, start);
        before + laid_out(children.last(), Some(parent), start + before.len())
    }
}

/// The positions of the roots of the trees that `laid_out_all` lays out.
pub open spec fn child_positions(children: Seq<SerdeModel>, parent: int, start: int) -> Seq<int>
    decreases children, 2nat,
{
    if children.len() == 0 {
        Seq::empty()
    } else {
        child_positions(children.drop_last(), parent, start).push(
            start + laid_out_all(children.drop_last(), parent, start).len(),
        )
    }
}

/// The node at place `i` of `s`, which stands in a tree from position
/// `base` on, has a parent that stands before it in `s` and lists it as a
/// child.
pub open spec fn has_parent_within(s: Seq<NodeModel>, base: int, i: int) -> bool {
    s[i].parent matches Some(p) && base <= p < base + i && s[p - base].children.contains(base + i)
}

/// The `k`-th child that the node at place `p` of `s` lists stands after it
/// in `s` and has that node as its parent.
pub open spec fn lists_child(s: Seq<NodeModel>, base: int, p: int, k: int) -> bool {
    let c = s[p].children[k];
    base + p < c < base + s.len() && s[c - base].parent == Some(base + p)
}

/// Every child that a node of `s` lists is a node of `s` with that node as
/// its parent, and no node lists a child twice: its children are in
/// ascending order of position.
pub open spec fn lists_own_children(s: Seq<NodeModel>, base: int) -> bool {
    &&& forall|p: int, k: int|
        0 <= p < s.len() && 0 <= k < s[p].children.len() ==> #[trigger] lists_child(s, base, p, k)
    &&& forall|p: int, j: int, k: int|
        0 <= p < s.len() && 0 <= j < k < s[p].children.len() ==> (#[trigger] s[p].children[j])
            < (#[trigger] s[p].children[k])
}

/// `s`, standing in a tree from position `base` on, is one tree: its first
/// node is the root, with the given parent; every other node's parent is
/// the node of `s` that lists it as a child; and a node's children are nodes
/// of `s` that have it as their parent.
pub open spec fn is_tree(s: Seq<NodeModel>, base: int, parent: Option<int>) -> bool {
    &&& s.len() >= 1
    &&& s[0].parent == parent
    &&& forall|i: int| 0 < i < s.len() ==> #[trigger] has_parent_within(s, base, i)
    &&& lists_own_children(s, base)
}

/// The nodes of a whole tree are well formed when the root, at position 0,
/// has no parent, every other node's parent is exactly the node that lists
/// it as a child, and every child that a node lists has that node as its
/// parent. A parent stands before its children, so no node is its own
/// ancestor.
pub open spec fn well_formed(tree: Seq<NodeModel>) -> bool {
    is_tree(tree, 0, None)
}

/// The root at `position` is a node of `s` with the parent `parent`.
spec fn is_root_at(s: Seq<NodeModel>, start: int, parent: int, position: int) -> bool {
    start <= position < start + s.len() && s[position - start].parent == Some(parent)
}

/// A node of `s` is a root or has its parent within `s`.
spec fn is_root_or_below(s: Seq<NodeModel>, start: int, roots: Seq<int>, i: int) -> bool {
    roots.contains(start + i) || has_parent_within(s, start, i)
}

/// `s`, standing in a tree from position `start` on, is a row of trees with
/// their roots at `roots`, each root with the parent `parent`.
spec fn is_forest(s: Seq<NodeModel>, start: int, parent: int, roots: Seq<int>) -> bool {
    &&& forall|k: int| 0 <= k < roots.len() ==> is_root_at(s, start, parent, #[trigger] roots[k])
    &&& forall|j: int, k: int|
        0 <= j < k < roots.len() ==> (#[trigger] roots[j]) < (#[trigger] roots[k])
    &&& forall|i: int| 0 <= i < s.len() ==> #[trigger] is_root_or_below(s, start, roots, i)
    &&& lists_own_children(s, start)
}

/// What `laid_out` lays out is one tree.
pub proof fn lemma_laid_out_is_tree(m: SerdeModel, parent: Option<int>, base: int)
    ensures
        is_tree(laid_out(m, parent, base), base, parent),
    decreases m, 0nat,
{
    let s = laid_out(m, parent, base);
    let f = laid_out_all(m.children, base, base + 1);
    let roots = child_positions(m.children, base, base + 1);
    lemma_laid_out_all_is_forest(m.children, base, base + 1);
    assert(s[0].children == roots);
    assert forall|i: int| 0 < i < s.len() implies #[trigger] has_parent_within(s, base, i) by {
        assert(s[i] == f[i - 1]);
        assert(is_root_or_below(f, base + 1, roots, i - 1));
        if roots.contains(base + i) {
            let k = choose|k: int| 0 <= k < roots.len() && roots[k] == base + i;
            assert(is_root_at(f, base + 1, base, roots[k]));
        } else {
            assert(has_parent_within(f, base + 1, i - 1));
            let p = f[i - 1].parent->Some_0;
            assert(s[p - base] == f[p - (base + 1)]);
        }
    }
    assert forall|p: int, k: int|
        0 <= p < s.len() && 0 <= k < s[p].children.len() implies #[trigger] lists_child(
        s,
        base,
        p,
        k,
    ) by {
        if p == 0 {
            assert(is_root_at(f, base + 1, base, roots[k]));
            assert(s[roots[k] - base] == f[roots[k] - (base + 1)]);
        } else {
            assert(s[p] == f[p - 1]);
            assert(lists_child(f, base + 1, p - 1, k));
            let c = f[p - 1].children[k];
            assert(s[c - base] == f[c - (base + 1)]);
        }
    }
    assert forall|p: int, j: int, k: int|
        0 <= p < s.len() && 0 <= j < k < s[p].children.len() implies (#[trigger] s[p].children[j])
        < (#[trigger] s[p].children[k]) by {
        if p > 0 {
            assert(s[p] == f[p - 1]);
        }
    }
}

/// What `laid_out_all` lays out is a row of trees with their roots at
/// `child_positions`.
proof fn lemma_laid_out_all_is_forest(children: Seq<SerdeModel>, parent: int, start: int)
    ensures
        is_forest(
            laid_out_all(children, parent, start),
            start,
            parent,
            child_positions(children, parent, start),
        ),
        child_positions(children, parent, start).len() == children.len(),
    decreases children, 1nat,
{
    let s = laid_out_all(children, parent, start);
    let roots = child_positions(children, parent, start);
    if children.len() > 0 {
        let f = laid_out_all(children.drop_last(), parent, start);
        let old_roots = child_positions(children.drop_last(), parent, start);
        let b = start + f.len();
        let t = laid_out(children.last(), Some(parent), b);
        lemma_laid_out_all_is_forest(children.drop_last(), parent, start);
        lemma_laid_out_is_tree(children.last(), Some(parent), b);
        assert(s == f + t);
        assert(roots == old_roots.push(b));
        assert forall|k: int| 0 <= k < roots.len() implies is_root_at(
            s,
            start,
            parent,
            #[trigger] roots[k],
        ) by {
            if k < old_roots.len() {
                assert(is_root_at(f, start, parent, old_roots[k]));
                assert(s[old_roots[k] - start] == f[old_roots[k] - start]);
            } else {
                assert(s[b - start] == t[0]);
            }
        }
        assert forall|j: int, k: int| 0 <= j < k < roots.len() implies (#[trigger] roots[j]) < (
        #[trigger] roots[k]) by {
            assert(is_root_at(f, start, parent, old_roots[j]));
        }
        assert forall|i: int| 0 <= i < s.len() implies #[trigger] is_root_or_below(
            s,
            start,
            roots,
            i,
        ) by {
            if i < f.len() {
                assert(s[i] == f[i]);
                assert(is_root_or_below(f, start, old_roots, i));
                if old_roots.contains(start + i) {
                    let k = choose|k: int| 0 <= k < old_roots.len() && old_roots[k] == start + i;
                    assert(roots[k] == start + i);
                } else {
                    let p = f[i].parent->Some_0;
                    assert(s[p - start] == f[p - start]);
                }
            } else if i == f.len() {
                assert(roots[old_roots.len() as int] == start + i);
            } else {
                assert(s[i] == t[i - f.len()]);
                assert(has_parent_within(t, b, i - f.len()));
                let p = t[i - f.len()].parent->Some_0;
                assert(s[p - start] == t[p - b]);
            }
        }
        assert forall|p: int, k: int|
            0 <= p < s.len() && 0 <= k < s[p].children.len() implies #[trigger] lists_child(
            s,
            start,
            p,
            k,
        ) by {
            if p < f.len() {
                assert(s[p] == f[p]);
                assert(lists_child(f, start, p, k));
                let c = f[p].children[k];
                assert(s[c - start] == f[c - start]);
            } else {
                assert(s[p] == t[p - f.len()]);
                assert(lists_child(t, b, p - f.len(), k));
                let c = t[p - f.len()].children[k];
                assert(s[c - start] == t[c - b]);
            }
        }
        assert forall|p: int, j: int, k: int|
            0 <= p < s.len() && 0 <= j < k < s[p].children.len() implies (
        #[trigger] s[p].children[j]) < (#[trigger] s[p].children[k]) by {
            if p < f.len() {
                assert(s[p] == f[p]);
            } else {
                assert(s[p] == t[p - f.len()]);
            }
        }
    }
}

/// The description of the tree below the node at `position`, read back
/// from the nodes: the node's URL and, for each child that it lists, the
/// description of the tree below that child.
pub open spec fn described_at(tree: Seq<NodeModel>, position: int) -> SerdeModel
    decreases tree.len() - position, tree[position].children.len() + 1,
{
    SerdeModel {
        url: tree[position].url,
        children: described_each(tree, position, tree[position].children),
    }
}

/// The descriptions of the trees below the nodes at `positions`, which the
/// node at `parent` lists as children.
pub open spec fn described_each(tree: Seq<NodeModel>, parent: int, positions: Seq<int>) -> Seq<
    SerdeModel,
>
    decreases tree.len() - parent, positions.len(),
{
    if positions.len() == 0 {
        Seq::empty()
    } else if parent < positions.last() < tree.len() {
        described_each(tree, parent, positions.drop_last()).push(
            described_at(tree, positions.last()),
        )
    } else {
        described_each(tree, parent, positions.drop_last()).push(
            SerdeModel { url: Seq::empty(), children: Seq::empty() },
        )
    }
}

/// The tree that is built is the tree that was described: where the nodes of
/// `tree` from `base` on are those that `laid_out` gives for `m`, the
/// description read back at `base` is `m`.
pub proof fn lemma_described_as_laid_out(
    tree: Seq<NodeModel>,
    m: SerdeModel,
    parent: Option<int>,
    base: int,
)
    requires
        0 <= base,
        base + laid_out(m, parent, base).len() <= tree.len(),
        tree.subrange(base, base + laid_out(m, parent, base).len()) == laid_out(m, parent, base),
    ensures
        described_at(tree, base) == m,
    decreases m, 0nat,
{
    let s = laid_out(m, parent, base);
    let f = laid_out_all(m.children, base, base + 1);
    assert(tree[base] == tree.subrange(base, base + s.len())[0]);
    assert(tree[base] == s[0]);
    assert(tree.subrange(base + 1, base + 1 + f.len()) =~= f) by {
        assert forall|i: int| 0 <= i < f.len() implies tree[base + 1 + i] == f[i] by {
            assert(tree[base + 1 + i] == tree.subrange(base, base + s.len())[i + 1]);
        }
    }
    lemma_described_each_as_laid_out(tree, m.children, base, base + 1);
    assert(described_at(tree, base).children =~= m.children);
}

/// Where the nodes of `tree` from `start` on are those that `laid_out_all`
/// gives for `children`, the descriptions read back at their roots are
/// `children`.
proof fn lemma_described_each_as_laid_out(
    tree: Seq<NodeModel>,
    children: Seq<SerdeModel>,
    parent: int,
    start: int,
)
    requires
        0 <= parent < start,
        start + laid_out_all(children, parent, start).len() <= tree.len(),
        tree.subrange(start, start + laid_out_all(children, parent, start).len())
            == laid_out_all(children, parent, start),
    ensures
        described_each(tree, parent, child_positions(children, parent, start)) == children,
    decreases children, 1nat,
{
    if children.len() > 0 {
        let s = laid_out_all(children, parent, start);
        let f = laid_out_all(children.drop_last(), parent, start);
        let b = start + f.len();
        let t = laid_out(children.last(), Some(parent), b);
        let roots = child_positions(children, parent, start);
        let old_roots = child_positions(children.drop_last(), parent, start);
        assert(s == f + t);
        assert(roots == old_roots.push(b));
        assert(roots.drop_last() =~= old_roots);
        lemma_laid_out_is_tree(children.last(), Some(parent), b);
        assert(tree.subrange(start, start + f.len()) =~= f) by {
            assert forall|i: int| 0 <= i < f.len() implies tree[start + i] == f[i] by {
                assert(tree[start + i] == tree.subrange(start, start + s.len())[i]);
                assert(s[i] == f[i]);
            }
        }
        assert(tree.subrange(b, b + t.len()) =~= t) by {
            assert forall|i: int| 0 <= i < t.len() implies tree[b + i] == t[i] by {
                assert(tree[b + i] == tree.subrange(start, start + s.len())[f.len() + i]);
                assert(s[f.len() + i] == t[i]);
            }
        }
        lemma_described_each_as_laid_out(tree, children.drop_last(), parent, start);
        lemma_described_as_laid_out(tree, children.last(), Some(parent), b);
        assert(described_each(tree, parent, roots) =~= children.drop_last().push(children.last()));
        assert(children.drop_last().push(children.last()) =~= children);
    } else {
        assert(described_each(tree, parent, child_positions(children, parent, start))
            =~= children);
    }
}

impl MeshTreeNode {
    /// Appends to `nodes` the tree that `mns` describes, its root with the
    /// given parent, and returns the root's position. The nodes stand as
    /// `laid_out` says; each is made with its parent in place.
    pub fn from_serde(mns: &MeshTreeNodeSerde, parent: Option<usize>, nodes: &mut Vec<
        MeshTreeNode,
    >) -> (root: usize)
        ensures
            root == old(nodes)@.len(),
            node_views(final(nodes)@) == node_views(old(nodes)@) + laid_out(
                mns@,
                match parent {
                    Some(p) => Some(p as int),
                    None => None,
                },
                old(nodes)@.len() as int,
            ),
        decreases mns,
    {
        let ghost before = node_views(nodes@);
        let ghost described = views(mns.children@);
        let ghost parent_model: Option<int> = match parent {
            Some(p) => Some(p as int),
            None => None,
        };
        let root = nodes.len();
        nodes.push(MeshTreeNode { url: mns.url.clone(), parent, children: Vec::new() });
        let ghost head = nodes@[root as int]@;
        let mut children: Vec<usize> = Vec::new();
        let mut i: usize = 0;
        proof {
            lemma_views(mns.children@);
            assert(described.take(0) =~= Seq::empty());
            assert(node_views(nodes@) =~= before + seq![head] + laid_out_all(
                described.take(0),
                root as int,
                root + 1,
            ));
            assert(children@.map_values(|c: usize| c as int) =~= child_positions(
                described.take(0),
                root as int,
                root + 1,
            ));
        }
        while i < mns.children.len()
            invariant
                i <= mns.children@.len(),
                described == views(mns.children@),
                described.len() == mns.children@.len(),
                forall|k: int| 0 <= k < mns.children@.len() ==> (#[trigger] described[k])
                    == mns.children@[k]@,
                root == before.len(),
                head == (NodeModel { url: mns.url@, parent: parent_model, children: Seq::empty() }),
                node_views(nodes@) == before + seq![head] + laid_out_all(
                    described.take(i as int),
                    root as int,
                    root + 1,
                ),
                children@.map_values(|c: usize| c as int) == child_positions(
                    described.take(i as int),
                    root as int,
                    root + 1,
                ),
            decreases mns.children@.len() - i,
        {
            let ghost so_far = node_views(nodes@);
            let ghost listed = children@.map_values(|c: usize| c as int);
            proof {
                assert(described.take(i + 1).drop_last() =~= described.take(i as int));
                assert(described.take(i + 1).last() == mns.children@[i as int]@);
                assert(so_far.len() == nodes@.len());
            }
            let child = MeshTreeNode::from_serde(&mns.children[i], Some(root), nodes);
            children.push(child);
            proof {
                assert(children@.map_values(|c: usize| c as int) =~= listed.push(child as int));
                assert(node_views(nodes@) =~= before + seq![head] + laid_out_all(
                    described.take(i + 1),
                    root as int,
                    root + 1,
                ));
            }
            i = i + 1;
        }
        proof {
            assert(described.take(i as int) =~= described);
            lemma_view_children(*mns);
        }
        let ghost filled = nodes@;
        let ghost listed = children@.map_values(|c: usize| c as int);
        nodes[root].children = children;
        proof {
            let done = node_views(nodes@);
            let wanted = before + laid_out(mns@, parent_model, root as int);
            assert(done.len() == wanted.len());
            let tail = laid_out_all(described, root as int, root + 1);
            assert(node_views(filled) == before + seq![head] + tail);
            assert(laid_out(mns@, parent_model, root as int) == seq![
                NodeModel {
                    url: mns@.url,
                    parent: parent_model,
                    children: child_positions(mns@.children, root as int, root + 1),
                },
            ] + tail);
            assert forall|k: int| 0 <= k < done.len() implies done[k] == wanted[k] by {
                if k < root {
                    assert(nodes@[k] == filled[k]);
                    assert(done[k] == node_views(filled)[k]);
                    assert(node_views(filled)[k] == before[k]);
                } else if k > root {
                    assert(nodes@[k] == filled[k]);
                    assert(done[k] == node_views(filled)[k]);
                    assert(node_views(filled)[k] == tail[k - root - 1]);
                    assert(wanted[k] == tail[k - root - 1]);
                } else {
                    assert(node_views(filled)[k] == head);
                    assert(filled[k]@ == head);
                    assert(nodes@[k].url == filled[k].url);
                    assert(nodes@[k].parent == filled[k].parent);
                    assert(nodes@[k].children@.map_values(|c: usize| c as int) == listed);
                    assert(done[k] == nodes@[k]@);
                    assert(wanted[k] == laid_out(mns@, parent_model, root as int)[0]);
                }
            }
            assert(done =~= wanted);
        }
        root
    }
}


/// A built tree. The root is at position 0; a position is the number by
/// which a node is found in its tree, and a position that the tree does not
/// have resolves to no node.
#[derive(Debug)]
pub struct MeshTree {
    nodes: Vec<MeshTreeNode>,
}

impl View for MeshTree {
    type V = Seq<NodeModel>;

    closed spec fn view(&self) -> Seq<NodeModel> {
        node_views(self.nodes@)
    }
}

impl MeshTree {
    /// Every tree is well formed.
    #[verifier::type_invariant]
    pub open spec fn wf(self) -> bool {
        well_formed(self@)
    }

    /// Builds the tree that `mns` describes: its nodes stand as `laid_out`
    /// says, the root without a parent. The tree is well formed, and the
    /// description read back from it at the root is that of `mns`.
    pub fn new(mns: &MeshTreeNodeSerde) -> (tree: MeshTree)
        ensures
            tree@ == laid_out(mns@, None, 0),
            well_formed(tree@),
            described_at(tree@, 0) == mns@,
    {
        let mut nodes: Vec<MeshTreeNode> = Vec::new();
        MeshTreeNode::from_serde(mns, None, &mut nodes);
        proof {
            let laid = laid_out(mns@, None, 0);
            lemma_laid_out_is_tree(mns@, None, 0);
            assert(node_views(nodes@) =~= laid);
            assert(laid.subrange(0, laid.len() as int) =~= laid);
            lemma_described_as_laid_out(laid, mns@, None, 0);
        }
        MeshTree { nodes }
    }

    /// The number of nodes.
    pub fn len(&self) -> (len: usize)
        ensures
            len == self@.len(),
            len >= 1,
    {
        proof {
            use_type_invariant(self);
        }
        self.nodes.len()
    }

    /// The node at `position`, or `None` where the tree has no such
    /// position.
    pub fn get(&self, position: usize) -> (node: Option<&MeshTreeNode>)
        ensures
            match node {
                Some(found) => position < self@.len() && found@ == self@[position as int],
                None => position >= self@.len(),
            },
    {
        if position < self.nodes.len() {
            Some(&self.nodes[position])
        } else {
            None
        }
    }

    /// The position of the parent of the node at `position`: `None` for the
    /// root, and for a position that the tree does not have.
    pub fn parent(&self, position: usize) -> (parent: Option<usize>)
        ensures
            match parent {
                Some(p) => 0 < position < self@.len() && self@[position as int].parent == Some(
                    p as int,
                ) && p < position && self@[p as int].children.contains(position as int),
                None => position == 0 || position >= self@.len(),
            },
    {
        proof {
            use_type_invariant(self);
        }
        if position < self.nodes.len() {
            assert(position > 0 ==> has_parent_within(self@, 0, position as int));
            self.nodes[position].parent
        } else {
            None
        }
    }

    /// The position of the child that the node at `position` lists at
    /// `child_index`: `None` where the node lists fewer children, and for a
    /// position that the tree does not have.
    pub fn child(&self, position: usize, child_index: usize) -> (child: Option<usize>)
        ensures
            match child {
                Some(c) => {
                    &&& position < self@.len()
                    &&& child_index < self@[position as int].children.len()
                    &&& self@[position as int].children[child_index as int] == c
                    &&& position < c < self@.len()
                    &&& self@[c as int].parent == Some(position as int)
                },
                None => position >= self@.len() || child_index
                    >= self@[position as int].children.len(),
            },
    {
        proof {
            use_type_invariant(self);
        }
        if position < self.nodes.len() && child_index < self.nodes[position].children.len() {
            assert(lists_child(self@, 0, position as int, child_index as int));
            Some(self.nodes[position].children[child_index])
        } else {
            None
        }
    }
}

impl MeshTreeNode {
    /// Builds the tree that JSON text describes.
    ///
    /// Text that is not JSON is `MalformedInput`. Otherwise the description
    /// is read as `node_of_json` says, which gives its error or the
    /// description whose tree is built as `laid_out` says.
    pub fn from_json(data: &str) -> (tree: Result<MeshTree, TreeError>)
        ensures
            match tree {
                Ok(built) => parsed_json(data@) matches Some(j) && node_of_json(j, 0) matches Ok(m)
                    && built@ == laid_out(m, None, 0) && well_formed(built@) && described_at(
                    built@,
                    0,
                ) == m,
                Err(e) => match parsed_json(data@) {
                    Some(j) => node_of_json(j, 0) == Err::<SerdeModel, TreeError>(e),
                    None => e == TreeError::MalformedInput,
                },
            },
    {
        match MeshTreeNodeSerde::parse(data) {
            Ok(root) => Ok(MeshTree::new(&root)),
            Err(e) => Err(e),
        }
    }
}

} // verus!
