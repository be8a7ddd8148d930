//! A tree whose direct successors are kept side by side in clusters, with
//! named branches leading from any item to further clusters.
//!
//! Read as an array, the tree is a run of items that can branch off after
//! any item; each cluster remembers how many items come before its first
//! one on the way from the root.
use vstd::prelude::*;

verus! {

/// Why a tree operation failed.
#[derive(Debug, Clone, Copy, PartialEq, Eq, Structural)]
pub enum ClusteredTreeError {
    InvalidIndex,
}

/// A tree of clusters: runs of items with named branches after each item.
pub struct ClusteredTree<T> {
    pub root: Cluster<T>,
}

/// A run of items, with the number of items that come before its first
/// item on the path from the root.
pub struct Cluster<T> {
    pub previous_items: usize,
    pub items: Vec<Node<T>>,
}

/// An item with the clusters that branch off after it, each under its name.
pub struct Node<T> {
    pub item: T,
    pub branches: Vec<(String, Cluster<T>)>,
}

/// A path to an item: an index into the root cluster, then for each
/// direction a branch to follow and an index into the cluster it leads to.
pub struct ClusteredTreeIndex {
    pub root_index: usize,
    pub directions: Vec<IndexDirection>,
    pub items_until_index: usize,
}

/// One step of a path: the branch to follow and the index into the cluster
/// it leads to.
pub struct IndexDirection {
    pub branch: String,
    pub cluster_index: usize,
}

/// The value of a [`Cluster`].
pub struct ClusterModel<T> {
    pub previous_items: int,
    pub items: Seq<NodeModel<T>>,
}

/// The value of a [`Node`].
pub struct NodeModel<T> {
    pub item: T,
    pub branches: Seq<(Seq<char>, ClusterModel<T>)>,
}

/// The value of a cluster.
pub open spec fn cluster_model<T>(c: Cluster<T>) -> ClusterModel<T>
    decreases c,
{
    ClusterModel { previous_items: c.previous_items as int, items: node_models(c.items@) }
}

/// The values of a run of nodes.
pub open spec fn node_models<T>(nodes: Seq<Node<T>>) -> Seq<NodeModel<T>>
    decreases nodes,
{
    if nodes.len() == 0 {
        Seq::empty()
    } else {
        node_models(nodes.drop_last()).push(node_model(nodes.last()))
    }
}

/// The value of a node.
pub open spec fn node_model<T>(n: Node<T>) -> NodeModel<T>
    decreases n,
{
    NodeModel { item: n.item, branches: branch_models(n.branches@) }
}

/// The values of a node's named branches.
pub open spec fn branch_models<T>(branches: Seq<(String, Cluster<T>)>) -> Seq<(Seq<char>, ClusterModel<T>)>
    decreases branches,
{
    if branches.len() == 0 {
        Seq::empty()
    } else {
        branch_models(branches.drop_last()).push(
            (branches.last().0@, cluster_model(branches.last().1)),
        )
    }
}

impl<T> View for Cluster<T> {
    type V = ClusterModel<T>;

    open spec fn view(&self) -> ClusterModel<T> {
        cluster_model(*self)
    }
}

impl<T> View for Node<T> {
    type V = NodeModel<T>;

    open spec fn view(&self) -> NodeModel<T> {
        node_model(*self)
    }
}

impl<T> View for ClusteredTree<T> {
    type V = ClusterModel<T>;

    open spec fn view(&self) -> ClusterModel<T> {
        cluster_model(self.root)
    }
}

/// The value of an [`IndexDirection`]: branch name and cluster index.
pub open spec fn direction_models(directions: Seq<IndexDirection>) -> Seq<(Seq<char>, int)> {
    directions.map_values(|d: IndexDirection| (d.branch@, d.cluster_index as int))
}

/// The values of a run of nodes are those of its nodes, one for one.
pub proof fn lemma_node_models<T>(nodes: Seq<Node<T>>)
    ensures
        node_models(nodes).len() == nodes.len(),
        forall|i: int| 0 <= i < nodes.len() ==> #[trigger] node_models(nodes)[i] == node_model(nodes[i]),
    decreases nodes.len(),
{
    if nodes.len() > 0 {
        lemma_node_models(nodes.drop_last());
    }
}

/// The values of a node's branches are those of its branches, one for one.
pub proof fn lemma_branch_models<T>(branches: Seq<(String, Cluster<T>)>)
    ensures
        branch_models(branches).len() == branches.len(),
        forall|i: int| 0 <= i < branches.len() ==> #[trigger] branch_models(branches)[i] == (
            branches[i].0@,
            cluster_model(branches[i].1),
        ),
    decreases branches.len(),
{
    if branches.len() > 0 {
        lemma_branch_models(branches.drop_last());
    }
}

/// The position of the first branch named `name`, if any.
pub open spec fn branch_position<T>(branches: Seq<(Seq<char>, ClusterModel<T>)>, name: Seq<char>) -> Option<int>
    decreases branches.len(),
{
    if branches.len() == 0 {
        None
    } else if branches[0].0 == name {
        Some(0)
    } else {
        match branch_position(branches.drop_first(), name) {
            Some(p) => Some(p + 1),
            None => None,
        }
    }
}

/// `branch_position` names the first branch called `name`, and is `None`
/// exactly when no branch has that name.
pub proof fn lemma_branch_position<T>(branches: Seq<(Seq<char>, ClusterModel<T>)>, name: Seq<char>)
    ensures
        match branch_position(branches, name) {
            Some(p) => 0 <= p < branches.len() && branches[p].0 == name && forall|j: int|
                0 <= j < p ==> #[trigger] branches[j].0 != name,
            None => forall|j: int| 0 <= j < branches.len() ==> #[trigger] branches[j].0 != name,
        },
    decreases branches.len(),
{
    if branches.len() > 0 && branches[0].0 != name {
        lemma_branch_position(branches.drop_first(), name);
        match branch_position(branches.drop_first(), name) {
            Some(p) => {
                assert forall|j: int| 0 <= j < p + 1 implies #[trigger] branches[j].0 != name by {
                    if j > 0 {
                        assert(branches[j] == branches.drop_first()[j - 1]);
                    }
                }
            },
            None => {
                assert forall|j: int| 0 <= j < branches.len() implies #[trigger] branches[j].0 != name by {
                    if j > 0 {
                        assert(branches[j] == branches.drop_first()[j - 1]);
                    }
                }
            },
        }
    }
}

/// Walks `directions` from `node`, which `items_until` items precede
/// (itself included); gives the node reached and the count for it, or
/// `None` when a branch is missing, an index lies outside its cluster, or
/// the count would not fit a `usize`.
pub open spec fn walk<T>(node: NodeModel<T>, items_until: int, directions: Seq<(Seq<char>, int)>) -> Option<
    (NodeModel<T>, int),
>
    decreases directions.len(),
{
    if directions.len() == 0 {
        Some((node, items_until))
    } else {
        match branch_position(node.branches, directions[0].0) {
            None => None,
            Some(p) => {
                let cluster = node.branches[p].1;
                let next_until = items_until + 1 + directions[0].1;
                if next_until > usize::MAX || !(0 <= directions[0].1 < cluster.items.len()) {
                    None
                } else {
                    walk(cluster.items[directions[0].1], next_until, directions.drop_first())
                }
            },
        }
    }
}

/// The node that `index` names in a tree whose root cluster is `root`, with
/// the number of items on the path to it (itself included).
pub open spec fn node_at<T>(root: ClusterModel<T>, root_index: int, directions: Seq<(Seq<char>, int)>) -> Option<
    (NodeModel<T>, int),
> {
    if 0 <= root_index < root.items.len() {
        walk(root.items[root_index], root_index + 1, directions)
    } else {
        None
    }
}

/// `node` with the node that `directions` lead to replaced by
/// `replacement` (unchanged when the directions lead nowhere).
pub open spec fn replace_walk<T>(
    node: NodeModel<T>,
    directions: Seq<(Seq<char>, int)>,
    replacement: NodeModel<T>,
) -> NodeModel<T>
    decreases directions.len(),
{
    if directions.len() == 0 {
        replacement
    } else {
        match branch_position(node.branches, directions[0].0) {
            None => node,
            Some(p) => {
                let cluster = node.branches[p].1;
                let i = directions[0].1;
                if !(0 <= i < cluster.items.len()) {
                    node
                } else {
                    NodeModel {
                        item: node.item,
                        branches: node.branches.update(
                            p,
                            (
                                node.branches[p].0,
                                ClusterModel {
                                    previous_items: cluster.previous_items,
                                    items: cluster.items.update(
                                        i,
                                        replace_walk(cluster.items[i], directions.drop_first(), replacement),
                                    ),
                                },
                            ),
                        ),
                    }
                }
            },
        }
    }
}

/// `node` with a new empty branch `name` whose cluster starts after
/// `previous_items` items.
pub open spec fn with_new_branch<T>(node: NodeModel<T>, name: Seq<char>, previous_items: int) -> NodeModel<T> {
    NodeModel {
        item: node.item,
        branches: node.branches.push((name, ClusterModel { previous_items, items: Seq::empty() })),
    }
}

/// What `branch` does to a node reached through `directions`: `None`
/// when it fails (no node there, a branch `name` already there, or a count
/// too large), else the new value of the starting node.
pub open spec fn branch_walk<T>(
    node: NodeModel<T>,
    items_until: int,
    directions: Seq<(Seq<char>, int)>,
    name: Seq<char>,
) -> Option<NodeModel<T>> {
    match walk(node, items_until, directions) {
        None => None,
        Some((target, count)) => if branch_position(target.branches, name) is Some {
            None
        } else {
            Some(replace_walk(node, directions, with_new_branch(target, name, count)))
        },
    }
}

/// The cluster holding the node that `directions` (at least one) lead to
/// from `node`.
pub open spec fn containing_cluster<T>(node: NodeModel<T>, directions: Seq<(Seq<char>, int)>) -> ClusterModel<T>
    decreases directions.len(),
{
    let cluster = node.branches[branch_position(node.branches, directions[0].0).unwrap()].1;
    if directions.len() <= 1 {
        cluster
    } else {
        containing_cluster(cluster.items[directions[0].1], directions.drop_first())
    }
}

/// The root cluster made by rerooting at the item that `root_index` and
/// `directions` name: that item and the ones after it in its cluster, with
/// nothing before them (the counts below are not yet adjusted).
pub open spec fn rerooted<T>(root: ClusterModel<T>, root_index: int, directions: Seq<(Seq<char>, int)>) -> ClusterModel<T> {
    if directions.len() == 0 {
        ClusterModel { previous_items: 0, items: root.items.skip(root_index) }
    } else {
        ClusterModel {
            previous_items: 0,
            items: containing_cluster(root.items[root_index], directions).items.skip(
                directions.last().1,
            ),
        }
    }
}

/// Lowers by `shift` the count of every cluster that branches off from
/// `items` or below, visiting items in order and each item's branches in
/// order, before the branches below them. Stops at the first cluster whose
/// count is below `shift`, leaving it and all later ones as they were; the
/// flag tells whether all were lowered.
pub open spec fn shift_nodes<T>(items: Seq<NodeModel<T>>, shift: int) -> (Seq<NodeModel<T>>, bool)
    decreases items,
{
    if items.len() == 0 {
        (Seq::empty(), true)
    } else {
        let first = shift_branches(items[0].branches, shift);
        let node = NodeModel { item: items[0].item, branches: first.0 };
        if !first.1 {
            (seq![node] + items.drop_first(), false)
        } else {
            let rest = shift_nodes(items.drop_first(), shift);
            (seq![node] + rest.0, rest.1)
        }
    }
}

/// `shift_nodes` for the branches of one item.
pub open spec fn shift_branches<T>(branches: Seq<(Seq<char>, ClusterModel<T>)>, shift: int) -> (
    Seq<(Seq<char>, ClusterModel<T>)>,
    bool,
)
    decreases branches,
{
    if branches.len() == 0 {
        (Seq::empty(), true)
    } else if branches[0].1.previous_items < shift {
        (branches, false)
    } else {
        let inner = shift_nodes(branches[0].1.items, shift);
        let entry = (
            branches[0].0,
            ClusterModel { previous_items: branches[0].1.previous_items - shift, items: inner.0 },
        );
        if !inner.1 {
            (seq![entry] + branches.drop_first(), false)
        } else {
            let rest = shift_branches(branches.drop_first(), shift);
            (seq![entry] + rest.0, rest.1)
        }
    }
}

/// The number of items and branches in `items` and below.
pub open spec fn size_nodes<T>(items: Seq<NodeModel<T>>) -> nat
    decreases items,
{
    if items.len() == 0 {
        0
    } else {
        1 + size_branches(items[0].branches) + size_nodes(items.drop_first())
    }
}

/// The number of branches and items in `branches` and below.
pub open spec fn size_branches<T>(branches: Seq<(Seq<char>, ClusterModel<T>)>) -> nat
    decreases branches,
{
    if branches.len() == 0 {
        0
    } else {
        1 + size_nodes(branches[0].1.items) + size_branches(branches.drop_first())
    }
}

/// The count `walk` gives is at least the one it starts from.
pub proof fn lemma_walk_count<T>(node: NodeModel<T>, items_until: int, directions: Seq<(Seq<char>, int)>)
    ensures
        walk(node, items_until, directions) matches Some((_, count)) ==> count >= items_until,
    decreases directions.len(),
{
    if directions.len() > 0 {
        match branch_position(node.branches, directions[0].0) {
            None => {},
            Some(p) => {
                let cluster = node.branches[p].1;
                let next_until = items_until + 1 + directions[0].1;
                if next_until <= usize::MAX && 0 <= directions[0].1 < cluster.items.len() {
                    lemma_walk_count(cluster.items[directions[0].1], next_until, directions.drop_first());
                }
            },
        }
    }
}

/// Where `walk` succeeds along at least one direction, the first branch
/// and index exist, the rest of the walk succeeds from the item reached,
/// and the last index lies within the cluster that holds the node reached.
pub proof fn lemma_walk_path<T>(node: NodeModel<T>, items_until: int, directions: Seq<(Seq<char>, int)>)
    requires
        directions.len() > 0,
        walk(node, items_until, directions) is Some,
    ensures
        branch_position(node.branches, directions[0].0) is Some,
        0 <= branch_position(node.branches, directions[0].0).unwrap() < node.branches.len(),
        0 <= directions[0].1 < node.branches[branch_position(node.branches, directions[0].0).unwrap()].1.items.len(),
        0 <= directions.last().1 < containing_cluster(node, directions).items.len(),
    decreases directions.len(),
{
    lemma_branch_position(node.branches, directions[0].0);
    if directions.len() > 1 {
        let p = branch_position(node.branches, directions[0].0).unwrap();
        let cluster = node.branches[p].1;
        let rest = directions.drop_first();
        assert(rest.last() == directions.last());
        lemma_walk_path(cluster.items[directions[0].1], items_until + 1 + directions[0].1, rest);
    }
}

/// The values of part of a run of nodes are that part of its values.
pub proof fn lemma_node_models_subrange<T>(nodes: Seq<Node<T>>, from: int, to: int)
    requires
        0 <= from <= to <= nodes.len(),
    ensures
        node_models(nodes.subrange(from, to)) == node_models(nodes).subrange(from, to),
{
    lemma_node_models(nodes);
    lemma_node_models(nodes.subrange(from, to));
    assert(node_models(nodes.subrange(from, to)) =~= node_models(nodes).subrange(from, to));
}

impl<T> ClusteredTree<T> {
    /// A tree with an empty root cluster.
    pub fn new() -> (tree: Self)
        ensures
            tree@.previous_items == 0,
            tree@.items.len() == 0,
    {
        ClusteredTree { root: Cluster { previous_items: 0, items: Vec::new() } }
    }

    /// The position of the first branch of `node` named `name`.
    fn find_branch(node: &Node<T>, name: &String) -> (position: Option<usize>)
        ensures
            position == match branch_position(node@.branches, name@) {
                Some(p) => Some(p as usize),
                None => None::<usize>,
            },
    {
        proof {
            lemma_branch_models(node.branches@);
            lemma_branch_position(node@.branches, name@);
        }
        let n = node.branches.len();
        let mut i: usize = 0;
        while i < n
            invariant
                n == node.branches@.len(),
                0 <= i <= n,
                node@.branches == branch_models(node.branches@),
                branch_models(node.branches@).len() == n,
                forall|j: int| 0 <= j < n ==> #[trigger] branch_models(node.branches@)[j] == (
                    node.branches@[j].0@,
                    cluster_model(node.branches@[j].1),
                ),
                forall|j: int| 0 <= j < i ==> #[trigger] node.branches@[j].0@ != name@,
                match branch_position(node@.branches, name@) {
                    Some(p) => 0 <= p < n && node@.branches[p].0 == name@ && forall|j: int|
                        0 <= j < p ==> #[trigger] node@.branches[j].0 != name@,
                    None => forall|j: int| 0 <= j < n ==> #[trigger] node@.branches[j].0 != name@,
                },
            decreases n - i,
        {
            if node.branches[i].0 == *name {
                proof {
                    assert(node@.branches[i as int].0 == name@);
                    match branch_position(node@.branches, name@) {
                        Some(p) => {
                            if p < i {
                                assert(node.branches@[p].0@ != name@);
                            }
                            if p > i {
                                assert(node@.branches[i as int].0 != name@);
                            }
                        },
                        None => {
                            assert(node@.branches[i as int].0 != name@);
                        },
                    }
                }
                return Some(i);
            }
            i = i + 1;
        }
        proof {
            match branch_position(node@.branches, name@) {
                Some(p) => {
                    assert(node.branches@[p].0@ != name@);
                },
                None => {},
            }
        }
        None
    }

    /// Walks `directions` from `node`, which `items_until_node` items precede
    /// (itself included), and gives the node reached with its count.
    fn node_at_from_directions<'b>(
        node: &'b Node<T>,
        items_until_node: usize,
        directions: &Vec<IndexDirection>,
    ) -> (result: Result<(&'b Node<T>, usize), ClusteredTreeError>)
        ensures
            match walk(node@, items_until_node as int, direction_models(directions@)) {
                Some((n, count)) => result matches Ok((found, c)) && found@ == n && c == count,
                None => result == Err::<(&Node<T>, usize), ClusteredTreeError>(
                    ClusteredTreeError::InvalidIndex,
                ),
            },
    {
        let ghost dirs = direction_models(directions@);
        let mut current: &'b Node<T> = node;
        let mut count: usize = items_until_node;
        let n = directions.len();
        let mut i: usize = 0;
        proof {
            assert(dirs.skip(0) =~= dirs);
        }
        while i < n
            invariant
                n == directions@.len(),
                dirs == direction_models(directions@),
                dirs.len() == n,
                0 <= i <= n,
                walk(node@, items_until_node as int, dirs) == walk(current@, count as int, dirs.skip(i as int)),
            decreases n - i,
        {
            let direction = &directions[i];
            proof {
                assert(dirs.skip(i as int)[0] == (direction.branch@, direction.cluster_index as int));
                assert(dirs.skip(i as int).drop_first() =~= dirs.skip(i + 1));
            }
            let position = match Self::find_branch(current, &direction.branch) {
                Some(p) => p,
                None => {
                    return Err(ClusteredTreeError::InvalidIndex);
                },
            };
            proof {
                lemma_branch_models(current.branches@);
                lemma_branch_position(current@.branches, direction.branch@);
                assert(current@.branches[position as int].1 == cluster_model(current.branches@[position as int].1));
            }
            let cluster = &current.branches[position].1;
            proof {
                lemma_node_models(cluster.items@);
                assert(cluster@.items.len() == cluster.items@.len());
            }
            proof {
                let ds = dirs.skip(i as int);
                assert(ds[0].0 == direction.branch@);
                let bp = branch_position(current@.branches, direction.branch@);
                assert(bp is Some);
                assert(0 <= bp.unwrap() < current@.branches.len());
                assert(current@.branches.len() == current.branches@.len());
                assert(current.branches@.len() == current.branches.len());
                assert(bp.unwrap() as usize == position);
                assert(bp.unwrap() == position as int);
                assert(branch_position(current@.branches, ds[0].0) == Some(position as int));
                assert(current@.branches[position as int].1 == cluster@);
            }
            if count == usize::MAX || direction.cluster_index > usize::MAX - count - 1 {
                return Err(ClusteredTreeError::InvalidIndex);
            }
            let next_count = count + 1 + direction.cluster_index;
            if direction.cluster_index >= cluster.items.len() {
                proof {
                    lemma_node_models(cluster.items@);
                }
                return Err(ClusteredTreeError::InvalidIndex);
            }
            proof {
                lemma_node_models(cluster.items@);
            }
            proof {
                assert(cluster@.items[direction.cluster_index as int] == cluster.items@[direction.cluster_index as int]@);
            }
            current = &cluster.items[direction.cluster_index];
            count = next_count;
            i = i + 1;
        }
        Ok((current, count))
    }

    /// The node that `index` names, with the number of items on the path to
    /// it (itself included).
    fn node_at_index(&self, index: &ClusteredTreeIndex) -> (result: Result<(&Node<T>, usize), ClusteredTreeError>)
        ensures
            match node_at(self@, index.root_index as int, direction_models(index.directions@)) {
                Some((n, count)) => result matches Ok((found, c)) && found@ == n && c == count,
                None => result == Err::<(&Node<T>, usize), ClusteredTreeError>(
                    ClusteredTreeError::InvalidIndex,
                ),
            },
    {
        proof {
            lemma_node_models(self.root.items@);
        }
        if index.root_index >= self.root.items.len() {
            return Err(ClusteredTreeError::InvalidIndex);
        }
        let root_node = &self.root.items[index.root_index];
        Self::node_at_from_directions(root_node, index.root_index + 1, &index.directions)
    }

    /// A copy of the item that `index` names; fails when `index` names no
    /// item.
    pub fn at(&self, index: &ClusteredTreeIndex) -> (result: Result<T, ClusteredTreeError>)
        where
            T: Clone,
        ensures
            match node_at(self@, index.root_index as int, direction_models(index.directions@)) {
                Some((n, _)) => result matches Ok(v) && cloned(n.item, v),
                None => result == Err::<T, ClusteredTreeError>(ClusteredTreeError::InvalidIndex),
            },
    {
        let (node, _) = self.node_at_index(index)?;
        Ok(node.item.clone())
    }

    /// Adds the branch `name` to the node that `directions[from..]` lead to
    /// from `node`; fails, changing nothing, where `branch_walk` does.
    fn branch_at_directions(
        node: &mut Node<T>,
        items_until_node: usize,
        directions: &Vec<IndexDirection>,
        from: usize,
        name: &str,
    ) -> (result: Result<(), ClusteredTreeError>)
        requires
            from <= directions@.len(),
        ensures
            match branch_walk(
                old(node)@,
                items_until_node as int,
                direction_models(directions@).skip(from as int),
                name@,
            ) {
                None => result == Err::<(), ClusteredTreeError>(ClusteredTreeError::InvalidIndex)
                    && final(node)@ == old(node)@,
                Some(updated) => result is Ok && final(node)@ == updated,
            },
        decreases directions@.len() - from,
    {
        let ghost dirs = direction_models(directions@).skip(from as int);
        let ghost old_node = node@;
        proof {
            lemma_branch_models(node.branches@);
        }
        if from == directions.len() {
            let name_string = crate::text::owned(name);
            if Self::find_branch(node, &name_string).is_some() {
                return Err(ClusteredTreeError::InvalidIndex);
            }
            let cluster = Cluster { previous_items: items_until_node, items: Vec::new() };
            let ghost old_branches = node.branches@;
            node.branches.push((name_string, cluster));
            proof {
                assert(node.branches@.drop_last() == old_branches);
                assert(cluster@.items =~= Seq::<NodeModel<T>>::empty());
                assert(node@ =~= with_new_branch(old_node, name@, items_until_node as int));
            }
            return Ok(());
        }
        let direction = &directions[from];
        proof {
            assert(dirs[0] == (direction.branch@, direction.cluster_index as int));
            assert(dirs.drop_first() =~= direction_models(directions@).skip(from + 1));
        }
        let position = match Self::find_branch(node, &direction.branch) {
            Some(p) => p,
            None => {
                return Err(ClusteredTreeError::InvalidIndex);
            },
        };
        proof {
            lemma_branch_position(node@.branches, direction.branch@);
            assert(node@.branches.len() == node.branches@.len());
            assert(node.branches@.len() == node.branches.len());
            assert(branch_position(node@.branches, dirs[0].0) == Some(position as int));
            assert(node@.branches[position as int].1 == node.branches@[position as int].1@);
            lemma_node_models(node.branches@[position as int].1.items@);
        }
        if items_until_node == usize::MAX || direction.cluster_index > usize::MAX - items_until_node - 1 {
            return Err(ClusteredTreeError::InvalidIndex);
        }
        let next_count = items_until_node + 1 + direction.cluster_index;
        if direction.cluster_index >= node.branches[position].1.items.len() {
            return Err(ClusteredTreeError::InvalidIndex);
        }
        let ghost old_entry = node.branches@[position as int];
        let ghost old_child = old_entry.1.items@[direction.cluster_index as int];
        let entry = &mut node.branches[position];
        let child = &mut entry.1.items[direction.cluster_index];
        let result = Self::branch_at_directions(child, next_count, directions, from + 1, name);
        proof {
            lemma_branch_models(node.branches@);
            lemma_node_models(node.branches@[position as int].1.items@);
            lemma_node_models(old_entry.1.items@);
            let new_entry = node.branches@[position as int];
            assert(new_entry.0 == old_entry.0);
            assert(new_entry.1.previous_items == old_entry.1.previous_items);
            assert(new_entry.1.items@ == old_entry.1.items@.update(
                direction.cluster_index as int,
                new_entry.1.items@[direction.cluster_index as int],
            ));
            assert(old_entry.1@.items[direction.cluster_index as int] == old_child@);
            let updated_cluster_items = new_entry.1@.items;
            assert(updated_cluster_items =~= old_entry.1@.items.update(
                direction.cluster_index as int,
                new_entry.1.items@[direction.cluster_index as int]@,
            ));
            assert(node@.branches =~= old_node.branches.update(
                position as int,
                (old_node.branches[position as int].0, new_entry.1@),
            ));
            if result is Err {
                assert(new_entry.1.items@[direction.cluster_index as int]@ == old_child@);
                assert(updated_cluster_items =~= old_entry.1@.items);
                assert(node@.branches =~= old_node.branches);
                assert(node@ =~= old_node);
            }
        }
        result
    }

    /// Adds an empty branch `name` after the item that `index` names; the
    /// branch's cluster starts after that item. Fails, changing nothing,
    /// when `index` names no item, the item already has a branch `name`, or
    /// the count would not fit a `usize`.
    pub fn branch(&mut self, index: &ClusteredTreeIndex, name: &str) -> (result: Result<
        (),
        ClusteredTreeError,
    >)
        ensures
            ({
                let dirs = direction_models(index.directions@);
                let ri = index.root_index as int;
                if !(0 <= ri < old(self)@.items.len()) {
                    result == Err::<(), ClusteredTreeError>(ClusteredTreeError::InvalidIndex)
                        && final(self)@ == old(self)@
                } else {
                    match branch_walk(old(self)@.items[ri], ri + 1, dirs, name@) {
                        None => result == Err::<(), ClusteredTreeError>(
                            ClusteredTreeError::InvalidIndex,
                        ) && final(self)@ == old(self)@,
                        Some(updated) => result is Ok && final(self)@ == ClusterModel {
                            previous_items: old(self)@.previous_items,
                            items: old(self)@.items.update(ri, updated),
                        },
                    }
                }
            }),
    {
        proof {
            lemma_node_models(self.root.items@);
        }
        if index.root_index >= self.root.items.len() {
            return Err(ClusteredTreeError::InvalidIndex);
        }
        let ghost old_items = self.root.items@;
        let root_node = &mut self.root.items[index.root_index];
        let result = Self::branch_at_directions(root_node, index.root_index + 1, &index.directions, 0, name);
        proof {
            assert(direction_models(index.directions@).skip(0) =~= direction_models(index.directions@));
            lemma_node_models(self.root.items@);
            lemma_node_models(old_items);
            assert(self@.items =~= old(self)@.items.update(
                index.root_index as int,
                self.root.items@[index.root_index as int]@,
            ));
            assert(old(self)@.items[index.root_index as int] == old_items[index.root_index as int]@);
            if result is Err {
                assert(self@.items =~= old(self)@.items);
            }
        }
        result
    }

    /// Lowers the counts below `items[from..]` as `shift_nodes` describes.
    fn shift_nodes_from(items: &mut Vec<Node<T>>, from: usize, shift: usize) -> (result: Result<
        (),
        ClusteredTreeError,
    >)
        requires
            from <= old(items)@.len(),
        ensures
            ({
                let shifted = shift_nodes(node_models(old(items)@).skip(from as int), shift as int);
                &&& node_models(final(items)@) == node_models(old(items)@).take(from as int) + shifted.0
                &&& shifted.1 ==> result is Ok
                &&& !shifted.1 ==> result == Err::<(), ClusteredTreeError>(
                    ClusteredTreeError::InvalidIndex,
                )
            }),
        decreases size_nodes(node_models(old(items)@).skip(from as int)),
    {
        let ghost old_models = node_models(items@);
        proof {
            lemma_node_models(items@);
        }
        if from == items.len() {
            proof {
                assert(old_models.take(from as int) =~= old_models);
                assert(old_models.skip(from as int) =~= Seq::<NodeModel<T>>::empty());
            }
            return Ok(());
        }
        let ghost rest = old_models.skip(from as int);
        let ghost old_node = items@[from as int];
        proof {
            assert(rest[0] == node_model(old_node));
            assert(rest.drop_first() =~= old_models.skip(from + 1));
            lemma_branch_models(old_node.branches@);
            assert(size_nodes(rest) == 1 + size_branches(rest[0].branches) + size_nodes(rest.drop_first()));
            assert(branch_models(old_node.branches@).skip(0) =~= branch_models(old_node.branches@));
        }
        let node = &mut items[from];
        let first = Self::shift_branches_from(&mut node.branches, 0, shift);
        proof {
            lemma_node_models(items@);
            assert(branch_models(old_node.branches@).skip(0) =~= branch_models(old_node.branches@));
            assert(branch_models(old_node.branches@).take(0) =~= Seq::<(Seq<char>, ClusterModel<T>)>::empty());
            assert(items@ == old(items)@.update(from as int, items@[from as int]));
            assert(items@[from as int].item == old_node.item);
        }
        match first {
            Err(e) => {
                proof {
                    let shifted_node = NodeModel { item: old_node.item, branches: shift_branches(branch_models(old_node.branches@), shift as int).0 };
                    assert(node_model(items@[from as int]) == shifted_node);
                    assert(node_models(items@) =~= old_models.take(from as int) + (seq![shifted_node] + rest.drop_first()));
                }
                Err(e)
            },
            Ok(()) => {
                let ghost mid_models = node_models(items@);
                proof {
                    lemma_node_models(items@);
                    assert(mid_models.skip(from + 1) =~= old_models.skip(from + 1));
                }
                let result = Self::shift_nodes_from(items, from + 1, shift);
                proof {
                    let shifted_node = NodeModel { item: old_node.item, branches: shift_branches(branch_models(old_node.branches@), shift as int).0 };
                    assert(mid_models =~= old_models.update(from as int, shifted_node));
                    assert(mid_models.skip(from + 1) =~= old_models.skip(from + 1));
                    assert(mid_models.take(from + 1) =~= old_models.take(from as int).push(shifted_node));
                    let tail = shift_nodes(old_models.skip(from + 1), shift as int);
                    assert(node_models(items@) =~= old_models.take(from as int) + (seq![shifted_node] + tail.0));
                }
                result
            },
        }
    }

    /// Lowers the counts of `branches[from..]` and below them as
    /// `shift_branches` describes.
    fn shift_branches_from(branches: &mut Vec<(String, Cluster<T>)>, from: usize, shift: usize) -> (result:
        Result<(), ClusteredTreeError>)
        requires
            from <= old(branches)@.len(),
        ensures
            ({
                let shifted = shift_branches(branch_models(old(branches)@).skip(from as int), shift as int);
                &&& branch_models(final(branches)@) == branch_models(old(branches)@).take(from as int) + shifted.0
                &&& shifted.1 ==> result is Ok
                &&& !shifted.1 ==> result == Err::<(), ClusteredTreeError>(
                    ClusteredTreeError::InvalidIndex,
                )
            }),
        decreases size_branches(branch_models(old(branches)@).skip(from as int)),
    {
        let ghost old_models = branch_models(branches@);
        proof {
            lemma_branch_models(branches@);
        }
        if from == branches.len() {
            proof {
                assert(old_models.take(from as int) =~= old_models);
                assert(old_models.skip(from as int) =~= Seq::<(Seq<char>, ClusterModel<T>)>::empty());
            }
            return Ok(());
        }
        let ghost rest = old_models.skip(from as int);
        let ghost old_entry = branches@[from as int];
        proof {
            assert(rest[0] == (old_entry.0@, cluster_model(old_entry.1)));
            assert(rest.drop_first() =~= old_models.skip(from + 1));
            lemma_node_models(old_entry.1.items@);
            assert(size_branches(rest) == 1 + size_nodes(rest[0].1.items) + size_branches(rest.drop_first()));
            assert(node_models(old_entry.1.items@).skip(0) =~= node_models(old_entry.1.items@));
        }
        if branches[from].1.previous_items < shift {
            proof {
                assert(old_models.take(from as int) + rest =~= old_models);
            }
            return Err(ClusteredTreeError::InvalidIndex);
        }
        let entry = &mut branches[from];
        entry.1.previous_items = entry.1.previous_items - shift;
        let inner = Self::shift_nodes_from(&mut entry.1.items, 0, shift);
        proof {
            lemma_branch_models(branches@);
            assert(node_models(old_entry.1.items@).skip(0) =~= node_models(old_entry.1.items@));
            assert(node_models(old_entry.1.items@).take(0) =~= Seq::<NodeModel<T>>::empty());
            assert(branches@ == old(branches)@.update(from as int, branches@[from as int]));
            assert(branches@[from as int].0 == old_entry.0);
        }
        let ghost new_entry_model = (
            old_entry.0@,
            ClusterModel {
                previous_items: old_entry.1.previous_items - shift,
                items: shift_nodes(node_models(old_entry.1.items@), shift as int).0,
            },
        );
        match inner {
            Err(e) => {
                proof {
                    assert(branch_models(branches@)[from as int] == new_entry_model);
                    assert(branch_models(branches@) =~= old_models.take(from as int) + (seq![new_entry_model] + rest.drop_first()));
                }
                Err(e)
            },
            Ok(()) => {
                let ghost mid_models = branch_models(branches@);
                proof {
                    lemma_branch_models(branches@);
                    assert(mid_models.skip(from + 1) =~= old_models.skip(from + 1));
                }
                let result = Self::shift_branches_from(branches, from + 1, shift);
                proof {
                    assert(mid_models =~= old_models.update(from as int, new_entry_model));
                    assert(mid_models.skip(from + 1) =~= old_models.skip(from + 1));
                    assert(mid_models.take(from + 1) =~= old_models.take(from as int).push(new_entry_model));
                    let tail = shift_branches(old_models.skip(from + 1), shift as int);
                    assert(branch_models(branches@) =~= old_models.take(from as int) + (seq![new_entry_model] + tail.0));
                }
                result
            },
        }
    }

    /// Takes out of `node` the cluster that holds the node reached along
    /// `directions[from..]`.
    fn extract_cluster(
        node: Node<T>,
        directions: &Vec<IndexDirection>,
        from: usize,
        Ghost(items_until): Ghost<int>,
    ) -> (cluster: Cluster<T>)
        requires
            from < directions@.len(),
            walk(node@, items_until, direction_models(directions@).skip(from as int)) is Some,
        ensures
            cluster@ == containing_cluster(node@, direction_models(directions@).skip(from as int)),
        decreases directions@.len() - from,
    {
        let ghost dirs = direction_models(directions@).skip(from as int);
        proof {
            lemma_walk_path(node@, items_until, dirs);
            lemma_branch_models(node.branches@);
            assert(dirs[0] == (directions@[from as int].branch@, directions@[from as int].cluster_index as int));
        }
        let mut node = node;
        let ghost old_node = node;
        let position = match Self::find_branch(&node, &directions[from].branch) {
            Some(p) => p,
            None => {
                proof {
                    assert(false);
                }
                return Cluster { previous_items: 0, items: Vec::new() };
            },
        };
        proof {
            assert(node.branches@.len() == node.branches.len());
            assert(branch_position(old_node@.branches, dirs[0].0).unwrap() == position as int);
        }
        let (_, mut cluster) = node.branches.remove(position);
        proof {
            assert(cluster@ == old_node@.branches[position as int].1);
            lemma_node_models(cluster.items@);
        }
        if from == directions.len() - 1 {
            return cluster;
        }
        let cluster_index = directions[from].cluster_index;
        if cluster_index >= cluster.items.len() {
            proof {
                assert(false);
            }
            return cluster;
        }
        let ghost old_cluster = cluster;
        let child = cluster.items.remove(cluster_index);
        proof {
            assert(child@ == old_cluster@.items[cluster_index as int]);
            assert(dirs.drop_first() =~= direction_models(directions@).skip(from + 1));
            assert(walk(old_node@, items_until, dirs) == walk(
                child@,
                items_until + 1 + cluster_index,
                dirs.drop_first(),
            ));
        }
        Self::extract_cluster(child, directions, from + 1, Ghost(items_until + 1 + cluster_index))
    }

    /// Makes the item that `index` names the first item of the tree: the
    /// root cluster becomes that item and the ones after it in its cluster,
    /// and every count below is lowered by the number of items up to that
    /// item. Fails, changing nothing, when `index` names no item; fails,
    /// leaving the counts lowered only up to that cluster, when some count
    /// below would drop under zero.
    pub fn reroot(&mut self, index: &ClusteredTreeIndex) -> (result: Result<(), ClusteredTreeError>)
        ensures
            ({
                let dirs = direction_models(index.directions@);
                match node_at(old(self)@, index.root_index as int, dirs) {
                    None => result == Err::<(), ClusteredTreeError>(ClusteredTreeError::InvalidIndex)
                        && final(self)@ == old(self)@,
                    Some((_, count)) => {
                        let shifted = shift_nodes(
                            rerooted(old(self)@, index.root_index as int, dirs).items,
                            count - 1,
                        );
                        &&& final(self)@ == ClusterModel { previous_items: 0, items: shifted.0 }
                        &&& shifted.1 ==> result is Ok
                        &&& !shifted.1 ==> result == Err::<(), ClusteredTreeError>(
                            ClusteredTreeError::InvalidIndex,
                        )
                    },
                }
            }),
    {
        let ghost dirs = direction_models(index.directions@);
        let ghost ri = index.root_index as int;
        let ghost old_root = self.root@;
        proof {
            if 0 <= ri < old_root.items.len() {
                lemma_walk_count(old_root.items[ri], ri + 1, dirs);
            }
        }
        let shift = match self.node_at_index(index) {
            Ok((_, count)) => count - 1,
            Err(e) => {
                return Err(e);
            },
        };
        proof {
            lemma_node_models(self.root.items@);
        }
        if index.directions.len() == 0 {
            let ghost old_items = self.root.items@;
            let new_items = self.root.items.split_off(index.root_index);
            proof {
                lemma_node_models_subrange(old_items, ri, old_items.len() as int);
                assert(old_root.items.skip(ri) =~= old_root.items.subrange(ri, old_root.items.len() as int));
            }
            self.root = Cluster { previous_items: 0, items: new_items };
        } else {
            let mut old_items: Vec<Node<T>> = Vec::new();
            std::mem::swap(&mut old_items, &mut self.root.items);
            let ghost taken = old_items@;
            let root_node = old_items.remove(index.root_index);
            proof {
                assert(root_node == taken[ri]);
                assert(root_node@ == old_root.items[ri]);
                assert(direction_models(index.directions@).skip(0) =~= dirs);
                lemma_walk_path(old_root.items[ri], ri + 1, dirs);
            }
            let mut cluster = Self::extract_cluster(root_node, &index.directions, 0, Ghost(ri + 1));
            let last_index = index.directions[index.directions.len() - 1].cluster_index;
            proof {
                lemma_node_models(cluster.items@);
                assert(dirs.last().1 == last_index as int);
            }
            let ghost cluster_items = cluster.items@;
            let ghost cluster_before = cluster@;
            let new_items = cluster.items.split_off(last_index);
            proof {
                lemma_node_models_subrange(cluster_items, last_index as int, cluster_items.len() as int);
                assert(cluster_before.items.skip(last_index as int) =~= node_models(cluster_items).subrange(
                    last_index as int,
                    cluster_items.len() as int,
                ));
            }
            self.root = Cluster { previous_items: 0, items: new_items };
        }
        proof {
            assert(node_models(self.root.items@).skip(0) =~= node_models(self.root.items@));
            assert(node_models(self.root.items@).take(0) =~= Seq::<NodeModel<T>>::empty());
            assert(self.root@.items == rerooted(old_root, ri, dirs).items);
        }
        Self::shift_nodes_from(&mut self.root.items, 0, shift)
    }
}

} // verus!
