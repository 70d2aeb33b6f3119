//! The content tree: one node per filesystem entry, with an aggregate
//! descendant count on every directory node.

use vstd::prelude::*;

use crate::errors::{TraversalError, TraversalErrorKind};

verus! {

/// Whether a node describes a directory or a file.
///
/// Any entry that is not a directory (an ordinary file, a symlink to a
/// file, a device node) is recorded as `File`.
#[derive(Clone, Copy, PartialEq, Eq, Structural, Debug)]
pub enum NodeType {
    Directory,
    File,
}

/// One node of the content tree.
///
/// `name` is the final path segment, not the full path. `size` is the byte
/// length for files and `0` for directories. `count` is the number of
/// descendant entries below the node, the node itself excluded. `expanded`
/// is a presentation flag that the builder always sets to `true`.
#[derive(Debug, PartialEq)]
pub struct ContentTreeNode {
    pub name: String,
    pub expanded: bool,
    pub size: u64,
    pub node_type: NodeType,
    pub children: Vec<ContentTreeNode>,
    pub count: usize,
}

/// The mathematical shape of a [`ContentTreeNode`]: the same fields, with
/// the name as a sequence of characters and the children as a sequence of
/// models. Contracts that compare whole trees speak of this type.
pub struct NodeModel {
    pub name: Seq<char>,
    pub expanded: bool,
    pub size: u64,
    pub node_type: NodeType,
    pub children: Seq<NodeModel>,
    pub count: usize,
}

impl ContentTreeNode {
    /// The model of this node: every field, recursively abstracted.
    pub open spec fn model(self) -> NodeModel
        decreases self,
    {
        NodeModel {
            name: self.name@,
            expanded: self.expanded,
            size: self.size,
            node_type: self.node_type,
            children: models(self.children@),
            count: self.count,
        }
    }
}

/// The models of a sequence of nodes, element for element.
pub open spec fn models(s: Seq<ContentTreeNode>) -> Seq<NodeModel>
    decreases s,
{
    if s.len() == 0 {
        Seq::empty()
    } else {
        seq![s[0].model()] + models(s.drop_first())
    }
}

/// `models` keeps the length and maps each element to its model.
pub proof fn lemma_models_index(s: Seq<ContentTreeNode>)
    ensures
        models(s).len() == s.len(),
        forall|k: int| 0 <= k < s.len() ==> models(s)[k] == s[k].model(),
    decreases s.len(),
{
    if s.len() > 0 {
        lemma_models_index(s.drop_first());
        assert forall|k: int| 0 <= k < s.len() implies models(s)[k] == s[k].model() by {
            if k > 0 {
                assert(models(s)[k] == models(s.drop_first())[k - 1]);
                assert(s.drop_first()[k - 1] == s[k]);
            }
        }
    }
}

/// The sum of the `count` fields of a sequence of nodes.
pub open spec fn counts_total(s: Seq<ContentTreeNode>) -> nat
    decreases s.len(),
{
    if s.len() == 0 {
        0
    } else {
        (s[0].count + counts_total(s.drop_first())) as nat
    }
}

/// The `count` a directory owes its children: one per direct child, plus
/// everything below each child.
pub open spec fn dir_count(children: Seq<ContentTreeNode>) -> nat {
    children.len() + counts_total(children)
}

/// The invariant of a built tree: files carry no children and a zero count,
/// directories carry size `0` and the exact aggregate count of their
/// subtree, and every node is marked expanded.
pub open spec fn well_formed(t: ContentTreeNode) -> bool
    decreases t,
{
    t.expanded && match t.node_type {
        NodeType::File => t.children@.len() == 0 && t.count == 0,
        NodeType::Directory => {
            &&& t.size == 0
            &&& t.count == dir_count(t.children@)
            &&& all_well_formed(t.children@)
        },
    }
}

/// Every node of the sequence satisfies [`well_formed`].
pub open spec fn all_well_formed(s: Seq<ContentTreeNode>) -> bool
    decreases s,
{
    if s.len() == 0 {
        true
    } else {
        well_formed(s[0]) && all_well_formed(s.drop_first())
    }
}

/// The number of nodes in the flattened subtree rooted at `t`, the root
/// itself included.
pub open spec fn subtree_size(t: ContentTreeNode) -> nat
    decreases t,
{
    1 + subtree_sizes(t.children@)
}

/// The total number of nodes in the flattened subtrees of a sequence of
/// nodes.
pub open spec fn subtree_sizes(s: Seq<ContentTreeNode>) -> nat
    decreases s,
{
    if s.len() == 0 {
        0
    } else {
        subtree_size(s[0]) + subtree_sizes(s.drop_first())
    }
}

/// Splitting a sequence splits the sum of its counts.
pub proof fn lemma_counts_total_concat(a: Seq<ContentTreeNode>, b: Seq<ContentTreeNode>)
    ensures
        counts_total(a + b) == counts_total(a) + counts_total(b),
    decreases a.len(),
{
    if a.len() == 0 {
        assert(a + b =~= b);
    } else {
        assert((a + b)[0] == a[0]);
        assert((a + b).drop_first() =~= a.drop_first() + b);
        lemma_counts_total_concat(a.drop_first(), b);
    }
}

/// Every well-formed directory node's `count` equals the number of its
/// direct children plus the sum of the children's counts.
pub proof fn lemma_dir_count_law(t: ContentTreeNode)
    requires
        well_formed(t),
        t.node_type == NodeType::Directory,
    ensures
        t.count == t.children@.len() + counts_total(t.children@),
{
}

/// Every well-formed file node has a zero count and no children.
pub proof fn lemma_file_node(t: ContentTreeNode)
    requires
        well_formed(t),
        t.node_type == NodeType::File,
    ensures
        t.count == 0,
        t.children@.len() == 0,
{
}

/// A well-formed directory without entries has a zero count.
pub proof fn lemma_empty_dir_count(t: ContentTreeNode)
    requires
        well_formed(t),
        t.node_type == NodeType::Directory,
        t.children@.len() == 0,
    ensures
        t.count == 0,
{
}

/// The aggregate count of a well-formed node equals the number of nodes in
/// its flattened subtree, the node itself excluded.
pub proof fn lemma_count_is_subtree_size(t: ContentTreeNode)
    requires
        well_formed(t),
    ensures
        t.count + 1 == subtree_size(t),
    decreases t,
{
    match t.node_type {
        NodeType::File => {
        },
        NodeType::Directory => {
            lemma_counts_are_subtree_sizes(t.children@);
        },
    }
}

/// The aggregate count a directory owes a well-formed child sequence equals
/// the total number of nodes in the children's flattened subtrees.
pub proof fn lemma_counts_are_subtree_sizes(s: Seq<ContentTreeNode>)
    requires
        all_well_formed(s),
    ensures
        dir_count(s) == subtree_sizes(s),
    decreases s,
{
    if s.len() > 0 {
        lemma_count_is_subtree_size(s[0]);
        lemma_counts_are_subtree_sizes(s.drop_first());
    }
}

impl ContentTreeNode {
    /// Build the leaf node for a file entry of the given name and byte size.
    pub fn new_file(name: String, size: u64) -> (r: ContentTreeNode)
        ensures
            well_formed(r),
            r.name == name,
            r.node_type == NodeType::File,
            r.size == size,
            r.expanded,
            r.children@.len() == 0,
            r.count == 0,
    {
        ContentTreeNode {
            name,
            expanded: true,
            size: size,
            node_type: NodeType::File,
            children: Vec::new(),
            count: 0,
        }
    }

    /// Build the node for a directory entry over its already-built children,
    /// aggregating their counts. Returns `None` exactly when the aggregate
    /// count does not fit in `usize`.
    pub fn new_directory(name: String, children: Vec<ContentTreeNode>) -> (r: Option<
        ContentTreeNode,
    >)
        requires
            all_well_formed(children@),
        ensures
            match r {
                Some(t) => {
                    &&& well_formed(t)
                    &&& t.name == name
                    &&& t.node_type == NodeType::Directory
                    &&& t.size == 0
                    &&& t.expanded
                    &&& t.children@ == children@
                    &&& t.count == dir_count(children@)
                },
                None => dir_count(children@) > usize::MAX,
            },
    {
        match dir_count_exec(&children) {
            Some(count) => Some(
                ContentTreeNode {
                    name,
                    expanded: true,
                    size: 0,
                    node_type: NodeType::Directory,
                    children,
                    count,
                },
            ),
            None => None,
        }
    }
}

/// Wrap already-built traversal results under the synthetic root node, which
/// is always named `content`, typed directory, of size `0`. Returns `None`
/// exactly when the aggregate count does not fit in `usize`.
pub fn build_root(children: Vec<ContentTreeNode>) -> (r: Option<ContentTreeNode>)
    requires
        all_well_formed(children@),
    ensures
        match r {
            Some(t) => {
                &&& well_formed(t)
                &&& t.name@ == "content"@
                &&& t.node_type == NodeType::Directory
                &&& t.size == 0
                &&& t.expanded
                &&& t.children@ == children@
                &&& t.count == dir_count(children@)
            },
            None => dir_count(children@) > usize::MAX,
        },
{
    ContentTreeNode::new_directory(String::from_str("content"), children)
}

/// The node name of one directory entry, from the decoded final path
/// segment. A segment that could not be decoded (`None`) is rejected with
/// an `InvalidName` error rather than aborting the traversal's process.
pub fn entry_name(name: Option<String>) -> (r: Result<String, TraversalError>)
    ensures
        match r {
            Ok(s) => name == Some(s),
            Err(e) => name is None && e.kind == TraversalErrorKind::InvalidName,
        },
{
    match name {
        Some(s) => Ok(s),
        None => Err(
            TraversalError {
                kind: TraversalErrorKind::InvalidName,
                message: String::from_str("entry name is not valid unicode"),
            },
        ),
    }
}

/// Compute `children.len() + Σ child.count`, or `None` on overflow.
fn dir_count_exec(children: &Vec<ContentTreeNode>) -> (r: Option<usize>)
    ensures
        match r {
            Some(c) => c == dir_count(children@),
            None => dir_count(children@) > usize::MAX,
        },
{
    let n = children.len();
    let mut total: usize = n;
    let mut i: usize = 0;
    while i < n
        invariant
            i <= n,
            n == children@.len(),
            total == n + counts_total(children@.subrange(0, i as int)),
        decreases n - i,
    {
        proof {
            assert(children@.subrange(0, i + 1) =~= children@.subrange(0, i as int).push(
                children@[i as int],
            ));
            lemma_counts_total_concat(
                children@.subrange(0, i as int),
                seq![children@[i as int]],
            );
            assert(children@.subrange(0, i as int).push(children@[i as int]) =~= children@.subrange(
                0,
                i as int,
            ) + seq![children@[i as int]]);
            assert(counts_total(seq![children@[i as int]]) == children@[i as int].count) by {
                assert(seq![children@[i as int]].drop_first() =~= Seq::<
                    ContentTreeNode,
                >::empty());
                assert(counts_total(Seq::<ContentTreeNode>::empty()) == 0);
                assert(seq![children@[i as int]][0] == children@[i as int]);
            }
        }
        match total.checked_add(children[i].count) {
            Some(t) => {
                total = t;
            },
            None => {
                proof {
                    assert(children@ =~= children@.subrange(0, i as int) + children@.subrange(
                        i as int,
                        n as int,
                    ));
                    lemma_counts_total_concat(
                        children@.subrange(0, i as int),
                        children@.subrange(i as int, n as int),
                    );
                    assert(counts_total(children@.subrange(i as int, n as int))
                        >= children@[i as int].count) by {
                        assert(children@.subrange(i as int, n as int)[0] == children@[i as int]);
                    }
                }
                return None;
            },
        }
        i = i + 1;
    }
    proof {
        assert(children@.subrange(0, n as int) =~= children@);
    }
    Some(total)
}

} // verus!
