//! The query tree: a prefix trie over the dot-separated segments of the
//! query paths.
use vstd::prelude::*;

use crate::error::Error;
use crate::error::ErrorKind;
use crate::utf8::DOLLAR;
use crate::utf8::DOT;

verus! {

/// A path must read `$.seg(.seg)*` with nonempty segments.
pub open spec fn valid_query(s: Seq<u8>) -> bool {
    &&& s.len() >= 3
    &&& s[0] == DOLLAR
    &&& s[1] == DOT
    &&& s[s.len() - 1] != DOT
    &&& forall|i: int| 2 <= i < s.len() && s[i] == DOT ==> #[trigger] s[i - 1] != DOT
}

/// Checks a query path against the grammar `$.seg(.seg)*`.
pub fn is_valid_query_str(query_str: &[u8]) -> (res: bool)
    ensures
        res == valid_query(query_str@),
{
    let n = query_str.len();
    if n < 3 || query_str[0] != DOLLAR || query_str[1] != DOT {
        return false;
    }
    if query_str[n - 1] == DOT {
        return false;
    }
    let mut i: usize = 2;
    while i < n
        invariant
            3 <= n == query_str@.len(),
            2 <= i <= n,
            query_str@[0] == DOLLAR,
            query_str@[1] == DOT,
            query_str@[n - 1] != DOT,
            forall|j: int| 2 <= j < i && query_str@[j] == DOT ==> #[trigger] query_str@[j - 1] != DOT,
        decreases n - i,
    {
        if query_str[i] == DOT && query_str[i - 1] == DOT {
            return false;
        }
        i += 1;
    }
    true
}

/// A node of the query tree. The root carries no id; every other node
/// carries the id its statistics are filed under, and a terminal node
/// carries the index of its path in the query list.
pub struct QueryNode {
    /// The identifier of this node; the root has none.
    pub node_id: Option<usize>,
    /// The index of the query path that ends at this node, if one does.
    pub path_id: Option<usize>,
    /// The children, keyed by field name; keys are distinct.
    pub children: Vec<(Vec<u8>, QueryNode)>,
}

/// The subtree under `n` descends at most `d` levels.
pub open spec fn depth_ok(n: QueryNode, d: int) -> bool
    decreases n, 1int, 0int,
{
    children_depth_ok(n, n.children@.len() as int, d)
}

/// The first `k` children of `n` descend at most `d - 1` levels each.
pub open spec fn children_depth_ok(n: QueryNode, k: int, d: int) -> bool
    decreases n, 0int, (if k >= 0 { k } else { 0 }),
{
    if k <= 0 {
        true
    } else {
        &&& 0 < k <= n.children@.len()
        &&& d >= 1
        &&& depth_ok(n.children@[k - 1].1, d - 1)
        &&& children_depth_ok(n, k - 1, d)
    }
}

/// Reads one child's bound out of the bundled one.
pub proof fn lemma_depth_index(n: QueryNode, k: int, d: int, j: int)
    requires
        children_depth_ok(n, k, d),
        0 <= j < k,
    ensures
        d >= 1,
        depth_ok(n.children@[j].1, d - 1),
    decreases k,
{
    if j < k - 1 {
        lemma_depth_index(n, k - 1, d, j);
    }
}

/// Bundles per-child bounds back up.
pub proof fn lemma_depth_build(n: QueryNode, k: int, d: int)
    requires
        0 <= k <= n.children@.len(),
        k > 0 ==> d >= 1,
        forall|j: int| 0 <= j < k ==> #[trigger] depth_ok(n.children@[j].1, d - 1),
    ensures
        children_depth_ok(n, k, d),
    decreases k,
{
    if k > 0 {
        assert(depth_ok(n.children@[k - 1].1, d - 1));
        lemma_depth_build(n, k - 1, d);
    }
}

/// A depth bound stays a bound when raised.
pub proof fn lemma_depth_widen(n: QueryNode, d: int, d2: int)
    requires
        depth_ok(n, d),
        d <= d2,
    ensures
        depth_ok(n, d2),
    decreases n,
{
    assert forall|j: int|
        0 <= j < n.children@.len() implies d2 >= 1 && depth_ok(
        #[trigger] n.children@[j].1,
        d2 - 1,
    ) by {
        lemma_depth_index(n, n.children@.len() as int, d, j);
        lemma_depth_widen(n.children@[j].1, d - 1, d2 - 1);
    }
    lemma_depth_build(n, n.children@.len() as int, d2);
}

/// Nodes with the same children have the same depth bounds.
pub proof fn lemma_depth_same_children(a: QueryNode, b: QueryNode, d: int)
    requires
        a.children@ == b.children@,
    ensures
        depth_ok(a, d) == depth_ok(b, d),
{
    if depth_ok(a, d) {
        assert forall|j: int|
            0 <= j < b.children@.len() implies d >= 1 && depth_ok(
            #[trigger] b.children@[j].1,
            d - 1,
        ) by {
            lemma_depth_index(a, a.children@.len() as int, d, j);
        }
        lemma_depth_build(b, b.children@.len() as int, d);
    }
    if depth_ok(b, d) {
        assert forall|j: int|
            0 <= j < a.children@.len() implies d >= 1 && depth_ok(
            #[trigger] a.children@[j].1,
            d - 1,
        ) by {
            lemma_depth_index(b, b.children@.len() as int, d, j);
        }
        lemma_depth_build(a, a.children@.len() as int, d);
    }
}

/// Every node id is below `nodes`, every path id below `paths`, and every
/// non-root node has an id.
pub open spec fn node_wf(n: QueryNode, nodes: int, paths: int) -> bool
    decreases n, 1int, 0int,
{
    &&& (n.path_id is Some ==> n.path_id.unwrap() < paths)
    &&& children_wf(n, n.children@.len() as int, nodes, paths)
}

/// The first `k` children are well formed.
pub open spec fn children_wf(n: QueryNode, k: int, nodes: int, paths: int) -> bool
    decreases n, 0int, (if k >= 0 { k } else { 0 }),
{
    if k <= 0 {
        true
    } else {
        &&& 0 < k <= n.children@.len()
        &&& n.children@[k - 1].1.node_id is Some
        &&& n.children@[k - 1].1.node_id.unwrap() < nodes
        &&& node_wf(n.children@[k - 1].1, nodes, paths)
        &&& children_wf(n, k - 1, nodes, paths)
    }
}

/// Reads one child's well-formedness out of the bundled one.
pub proof fn lemma_wf_index(n: QueryNode, k: int, nodes: int, paths: int, j: int)
    requires
        children_wf(n, k, nodes, paths),
        0 <= j < k,
    ensures
        n.children@[j].1.node_id is Some,
        n.children@[j].1.node_id.unwrap() < nodes,
        node_wf(n.children@[j].1, nodes, paths),
    decreases k,
{
    if j < k - 1 {
        lemma_wf_index(n, k - 1, nodes, paths, j);
    }
}

/// Bundles per-child well-formedness back up.
pub proof fn lemma_wf_build(n: QueryNode, k: int, nodes: int, paths: int)
    requires
        0 <= k <= n.children@.len(),
        forall|j: int|
            0 <= j < k ==> (#[trigger] n.children@[j].1).node_id is Some
                && n.children@[j].1.node_id.unwrap() < nodes && node_wf(
                n.children@[j].1,
                nodes,
                paths,
            ),
    ensures
        children_wf(n, k, nodes, paths),
    decreases k,
{
    if k > 0 {
        assert((n.children@[k - 1].1).node_id is Some && n.children@[k - 1].1.node_id.unwrap()
            < nodes && node_wf(n.children@[k - 1].1, nodes, paths));
        assert forall|j: int|
            0 <= j < k - 1 implies (#[trigger] n.children@[j].1).node_id is Some
            && n.children@[j].1.node_id.unwrap() < nodes && node_wf(
            n.children@[j].1,
            nodes,
            paths,
        ) by {
            assert((n.children@[j].1).node_id is Some && n.children@[j].1.node_id.unwrap() < nodes
                && node_wf(n.children@[j].1, nodes, paths));
        }
        lemma_wf_build(n, k - 1, nodes, paths);
    }
}

/// Well-formedness is monotone in the id bounds.
pub proof fn lemma_node_wf_widen(n: QueryNode, nodes: int, paths: int, nodes2: int, paths2: int)
    requires
        node_wf(n, nodes, paths),
        nodes <= nodes2,
        paths <= paths2,
    ensures
        node_wf(n, nodes2, paths2),
    decreases n,
{
    assert forall|j: int|
        0 <= j < n.children@.len() implies (#[trigger] n.children@[j].1).node_id is Some
        && n.children@[j].1.node_id.unwrap() < nodes2 && node_wf(
        n.children@[j].1,
        nodes2,
        paths2,
    ) by {
        lemma_wf_index(n, n.children@.len() as int, nodes, paths, j);
        lemma_node_wf_widen(n.children@[j].1, nodes, paths, nodes2, paths2);
    }
    lemma_wf_build(n, n.children@.len() as int, nodes2, paths2);
}

/// Looks the field up among the children, first match.
pub open spec fn seq_find(cs: Seq<(Vec<u8>, QueryNode)>, field: Seq<u8>) -> Option<QueryNode>
    decreases cs.len(),
{
    if cs.len() == 0 {
        Option::None
    } else if cs[0].0@ == field {
        Some(cs[0].1)
    } else {
        seq_find(cs.drop_first(), field)
    }
}

/// A child found by lookup fits one level below the node.
pub proof fn lemma_find_depth(n: QueryNode, field: Seq<u8>, d: int)
    requires
        seq_find(n.children@, field) is Some,
        depth_ok(n, d),
    ensures
        d >= 1,
        depth_ok(seq_find(n.children@, field).unwrap(), d - 1),
{
    let j = lemma_seq_find_index(n.children@, field);
    lemma_depth_index(n, n.children@.len() as int, d, j);
}

/// A successful lookup names a child index.
pub proof fn lemma_seq_find_index(cs: Seq<(Vec<u8>, QueryNode)>, field: Seq<u8>) -> (j: int)
    requires
        seq_find(cs, field) is Some,
    ensures
        0 <= j < cs.len(),
        cs[j].1 == seq_find(cs, field).unwrap(),
        cs[j].0@ == field,
    decreases cs.len(),
{
    if cs.len() > 0 && cs[0].0@ == field {
        0
    } else {
        let j = lemma_seq_find_index(cs.drop_first(), field);
        assert(cs.drop_first()[j] == cs[j + 1]);
        j + 1
    }
}

/// A found child stays wf with the tree's bounds.
pub proof fn lemma_find_wf(n: QueryNode, field: Seq<u8>, nodes: int, paths: int)
    requires
        seq_find(n.children@, field) is Some,
        node_wf(n, nodes, paths),
    ensures
        seq_find(n.children@, field).unwrap().node_id is Some,
        seq_find(n.children@, field).unwrap().node_id.unwrap() < nodes,
        node_wf(seq_find(n.children@, field).unwrap(), nodes, paths),
{
    let j = lemma_seq_find_index(n.children@, field);
    lemma_wf_index(n, n.children@.len() as int, nodes, paths, j);
}

/// Two byte strings are equal.
pub(crate) fn bytes_eq(a: &Vec<u8>, b: &[u8]) -> (res: bool)
    ensures
        res == (a@ == b@),
{
    if a.len() != b.len() {
        proof {
            assert(a@.len() != b@.len());
        }
        return false;
    }
    let n = a.len();
    let mut i: usize = 0;
    while i < n
        invariant
            n == a@.len() == b@.len(),
            i <= n,
            forall|j: int| 0 <= j < i ==> a@[j] == b@[j],
        decreases n - i,
    {
        if a[i] != b[i] {
            return false;
        }
        i += 1;
    }
    proof {
        assert(a@ =~= b@);
    }
    true
}

impl QueryNode {
    /// A node without children.
    pub fn empty(node_id: Option<usize>) -> (res: QueryNode)
        ensures
            res.node_id == node_id,
            res.path_id is None,
            res.children@.len() == 0,
    {
        QueryNode { node_id, path_id: None, children: Vec::new() }
    }

    /// Whether this node ends every path through it.
    pub fn is_leaf(&self) -> (res: bool)
        ensures
            res == (self.children@.len() == 0),
    {
        self.children.len() == 0
    }

    /// The identifier of this node, if available; the root has none.
    pub fn node_id(&self) -> (res: Option<usize>)
        ensures
            res == self.node_id,
    {
        self.node_id
    }

    /// The identifier of this node; not for the root.
    pub fn id(&self) -> (res: usize)
        requires
            self.node_id is Some,
        ensures
            res == self.node_id.unwrap(),
    {
        match self.node_id {
            Some(id) => id,
            None => unreached(),
        }
    }

    /// The path identifier associated with this node, if one ends here.
    pub fn path_id(&self) -> (res: Option<usize>)
        ensures
            res == self.path_id,
    {
        self.path_id
    }

    /// The child whose field name is `field`, if any.
    pub fn get_child(&self, field: &[u8]) -> (res: Option<&QueryNode>)
        ensures
            match res {
                Some(c) => seq_find(self.children@, field@) == Some(*c),
                None => seq_find(self.children@, field@) is None,
            },
    {
        let n = self.children.len();
        let mut k: usize = 0;
        while k < n
            invariant
                n == self.children@.len(),
                k <= n,
                forall|j: int| 0 <= j < k ==> (#[trigger] self.children@[j]).0@ != field@,
            decreases n - k,
        {
            if bytes_eq(&self.children[k].0, field) {
                proof {
                    lemma_seq_find_at(self.children@, field@, k as int);
                }
                return Some(&self.children[k].1);
            }
            k += 1;
        }
        proof {
            lemma_seq_find_none(self.children@, field@);
        }
        None
    }

    /// How many children this node has.
    pub fn num_children(&self) -> (res: usize)
        ensures
            res == self.children@.len(),
    {
        self.children.len()
    }

    /// The children, for iteration in insertion order.
    pub fn iter(&self) -> (res: &Vec<(Vec<u8>, QueryNode)>)
        ensures
            res == &self.children,
    {
        &self.children
    }
}

/// A first match at `k`, with no match before it, is what lookup finds.
proof fn lemma_seq_find_at(cs: Seq<(Vec<u8>, QueryNode)>, field: Seq<u8>, k: int)
    requires
        0 <= k < cs.len(),
        cs[k].0@ == field,
        forall|j: int| 0 <= j < k ==> (#[trigger] cs[j]).0@ != field,
    ensures
        seq_find(cs, field) == Some(cs[k].1),
    decreases k,
{
    if k > 0 {
        assert forall|j: int| 0 <= j < k - 1 implies (#[trigger] cs.drop_first()[j]).0@ != field by {
            assert(cs.drop_first()[j] == cs[j + 1]);
        }
        assert(cs.drop_first()[k - 1] == cs[k]);
        lemma_seq_find_at(cs.drop_first(), field, k - 1);
    }
}

/// Without a match anywhere, lookup finds nothing.
proof fn lemma_seq_find_none(cs: Seq<(Vec<u8>, QueryNode)>, field: Seq<u8>)
    requires
        forall|j: int| 0 <= j < cs.len() ==> (#[trigger] cs[j]).0@ != field,
    ensures
        seq_find(cs, field) is None,
    decreases cs.len(),
{
    if cs.len() > 0 {
        assert forall|j: int|
            0 <= j < cs.drop_first().len() implies (#[trigger] cs.drop_first()[j]).0@ != field by {
            assert(cs.drop_first()[j] == cs[j + 1]);
        }
        lemma_seq_find_none(cs.drop_first(), field);
    }
}


/// Where the segment that starts at `from` ends: the next dot or the end.
pub open spec fn seg_end_of(path: Seq<u8>, from: int) -> int
    decreases (if from < path.len() { path.len() - from } else { 0 }),
{
    if from >= path.len() || path[from] == DOT {
        from
    } else {
        seg_end_of(path, from + 1)
    }
}

/// The node the segments of `path[from..]` lead to, if every one resolves.
pub open spec fn path_node(n: QueryNode, path: Seq<u8>, from: int) -> Option<QueryNode>
    decreases (if from <= path.len() { path.len() - from + 1 } else { 0 }),
{
    let se = seg_end_of(path, from);
    let field = path.subrange(from, se);
    match seq_find(n.children@, field) {
        Option::None => Option::None,
        Some(c) => {
            if se >= path.len() {
                Some(c)
            } else if from <= se < path.len() {
                path_node(c, path, se + 1)
            } else {
                Option::None
            }
        },
    }
}


/// The index of the child whose field name is `field`, or -1.
pub open spec fn find_idx(cs: Seq<(Vec<u8>, QueryNode)>, field: Seq<u8>) -> int
    decreases cs.len(),
{
    if cs.len() == 0 {
        -1
    } else if cs[0].0@ == field {
        0
    } else {
        let r = find_idx(cs.drop_first(), field);
        if r < 0 {
            -1
        } else {
            r + 1
        }
    }
}

/// Lookup by index and lookup by value agree.
pub proof fn lemma_find_idx(cs: Seq<(Vec<u8>, QueryNode)>, field: Seq<u8>)
    ensures
        find_idx(cs, field) >= 0 <==> seq_find(cs, field) is Some,
        find_idx(cs, field) >= 0 ==> 0 <= find_idx(cs, field) < cs.len() && cs[find_idx(
            cs,
            field,
        )].0@ == field && cs[find_idx(cs, field)].1 == seq_find(cs, field).unwrap(),
    decreases cs.len(),
{
    if cs.len() > 0 && cs[0].0@ != field {
        lemma_find_idx(cs.drop_first(), field);
        if find_idx(cs.drop_first(), field) >= 0 {
            assert(cs.drop_first()[find_idx(cs.drop_first(), field)] == cs[find_idx(cs, field)]);
        }
    }
}


/// A first match at `k` is where the index lookup lands.
proof fn lemma_find_idx_at(cs: Seq<(Vec<u8>, QueryNode)>, field: Seq<u8>, k: int)
    requires
        0 <= k < cs.len(),
        cs[k].0@ == field,
        forall|j: int| 0 <= j < k ==> (#[trigger] cs[j]).0@ != field,
    ensures
        find_idx(cs, field) == k,
    decreases k,
{
    if k > 0 {
        assert forall|j: int| 0 <= j < k - 1 implies (#[trigger] cs.drop_first()[j]).0@ != field by {
            assert(cs.drop_first()[j] == cs[j + 1]);
        }
        assert(cs.drop_first()[k - 1] == cs[k]);
        lemma_find_idx_at(cs.drop_first(), field, k - 1);
    }
}

/// A segment never ends before it starts.
proof fn lemma_seg_end_bounds(path: Seq<u8>, from: int)
    ensures
        from <= seg_end_of(path, from),
        from < path.len() ==> seg_end_of(path, from) <= path.len(),
    decreases (if from < path.len() { path.len() - from } else { 0 }),
{
    if from < path.len() && path[from] != DOT {
        lemma_seg_end_bounds(path, from + 1);
    }
}

/// Nodes with the same children resolve every path alike.
pub proof fn lemma_path_node_same_children(a: QueryNode, b: QueryNode, path: Seq<u8>, from: int)
    requires
        a.children@ == b.children@,
    ensures
        path_node(a, path, from) == path_node(b, path, from),
{
}

/// Replacing the child at `k` under its own key reroutes only the lookups
/// that the key catches first.
proof fn lemma_seq_find_update(cs: Seq<(Vec<u8>, QueryNode)>, k: int, x: QueryNode, f2: Seq<u8>)
    requires
        0 <= k < cs.len(),
    ensures
        seq_find(cs.update(k, (cs[k].0, x)), f2) == (if find_idx(cs, f2) == k {
            Some(x)
        } else {
            seq_find(cs, f2)
        }),
    decreases cs.len(),
{
    let cs2 = cs.update(k, (cs[k].0, x));
    if cs.len() > 0 {
        if k == 0 {
            if cs[0].0@ == f2 {
                assert(find_idx(cs, f2) == 0);
            } else {
                assert(cs2.drop_first() =~= cs.drop_first());
                assert(find_idx(cs, f2) != 0);
            }
        } else {
            if cs[0].0@ == f2 {
                assert(find_idx(cs, f2) == 0);
            } else {
                assert(cs2.drop_first() =~= cs.drop_first().update(k - 1, (cs.drop_first()[k - 1].0, x)));
                assert(cs.drop_first()[k - 1] == cs[k]);
                lemma_seq_find_update(cs.drop_first(), k - 1, x, f2);
                if find_idx(cs.drop_first(), f2) >= 0 {
                    assert(find_idx(cs, f2) == find_idx(cs.drop_first(), f2) + 1);
                } else {
                    assert(find_idx(cs, f2) == -1);
                }
            }
        }
    }
}

/// Adding a child under a fresh key leaves every other lookup alone.
proof fn lemma_seq_find_push(cs: Seq<(Vec<u8>, QueryNode)>, e: (Vec<u8>, QueryNode), f2: Seq<u8>)
    ensures
        seq_find(cs.push(e), f2) == (if seq_find(cs, f2) is Some {
            seq_find(cs, f2)
        } else if e.0@ == f2 {
            Some(e.1)
        } else {
            Option::None
        }),
    decreases cs.len(),
{
    if cs.len() == 0 {
        assert(cs.push(e)[0] == e);
        assert(cs.push(e).drop_first() =~= Seq::<(Vec<u8>, QueryNode)>::empty());
        assert(seq_find(cs, f2) is None);
        assert(seq_find(Seq::<(Vec<u8>, QueryNode)>::empty(), f2) is None);
        if e.0@ == f2 {
            assert(seq_find(cs.push(e), f2) == Some(e.1));
        } else {
            assert(seq_find(cs.push(e), f2) is None);
        }
    } else {
        assert(cs.push(e)[0] == cs[0]);
        if cs[0].0@ != f2 {
            assert(cs.push(e).drop_first() =~= cs.drop_first().push(e));
            lemma_seq_find_push(cs.drop_first(), e, f2);
            assert(seq_find(cs.push(e), f2) == seq_find(cs.drop_first().push(e), f2));
            assert(seq_find(cs, f2) == seq_find(cs.drop_first(), f2));
        } else {
            assert(seq_find(cs.push(e), f2) == Some(cs[0].1));
            assert(seq_find(cs, f2) == Some(cs[0].1));
        }
    }
}


/// The mathematical shape of a query tree: the same fields, with field
/// names as byte sequences.
pub ghost struct TreeView {
    pub node_id: Option<usize>,
    pub path_id: Option<usize>,
    pub children: Seq<(Seq<u8>, TreeView)>,
}

/// The views of the first `k` children.
pub open spec fn children_view(n: QueryNode, k: int) -> Seq<(Seq<u8>, TreeView)>
    decreases n, 0int, (if k >= 0 { k } else { 0 }),
{
    if k <= 0 || k > n.children@.len() {
        Seq::empty()
    } else {
        children_view(n, k - 1).push((n.children@[k - 1].0@, node_view(n.children@[k - 1].1)))
    }
}

/// The view of a node.
pub open spec fn node_view(n: QueryNode) -> TreeView
    decreases n, 1int, 0int,
{
    TreeView {
        node_id: n.node_id,
        path_id: n.path_id,
        children: children_view(n, n.children@.len() as int),
    }
}

/// Reading the children view entry by entry.
pub proof fn lemma_children_view_index(n: QueryNode, k: int)
    requires
        0 <= k <= n.children@.len(),
    ensures
        children_view(n, k).len() == k,
        forall|j: int|
            0 <= j < k ==> #[trigger] children_view(n, k)[j] == (
                n.children@[j].0@,
                node_view(n.children@[j].1),
            ),
    decreases k,
{
    if k > 0 {
        lemma_children_view_index(n, k - 1);
    }
}

/// Nodes that agree on their first `k` children agree on the view of those.
proof fn lemma_children_view_prefix(a: QueryNode, b: QueryNode, k: int)
    requires
        0 <= k <= a.children@.len(),
        k <= b.children@.len(),
        forall|j: int| 0 <= j < k ==> #[trigger] a.children@[j] == b.children@[j],
    ensures
        children_view(a, k) == children_view(b, k),
    decreases k,
{
    if k > 0 {
        lemma_children_view_prefix(a, b, k - 1);
        assert(a.children@[k - 1] == b.children@[k - 1]);
    }
}

/// The first match in a children view, or -1.
pub open spec fn find_view(cs: Seq<(Seq<u8>, TreeView)>, field: Seq<u8>) -> int
    decreases cs.len(),
{
    if cs.len() == 0 {
        -1
    } else if cs[0].0 == field {
        0
    } else {
        let r = find_view(cs.drop_first(), field);
        if r < 0 {
            -1
        } else {
            r + 1
        }
    }
}

/// A first match at `k` is where the view lookup lands.
proof fn lemma_find_view_at(cs: Seq<(Seq<u8>, TreeView)>, field: Seq<u8>, k: int)
    requires
        0 <= k < cs.len(),
        cs[k].0 == field,
        forall|j: int| 0 <= j < k ==> (#[trigger] cs[j]).0 != field,
    ensures
        find_view(cs, field) == k,
    decreases k,
{
    if k > 0 {
        assert forall|j: int| 0 <= j < k - 1 implies (#[trigger] cs.drop_first()[j]).0 != field by {
            assert(cs.drop_first()[j] == cs[j + 1]);
        }
        assert(cs.drop_first()[k - 1] == cs[k]);
        lemma_find_view_at(cs.drop_first(), field, k - 1);
    }
}

/// Without a match anywhere, the view lookup lands nowhere.
proof fn lemma_find_view_none(cs: Seq<(Seq<u8>, TreeView)>, field: Seq<u8>)
    requires
        forall|j: int| 0 <= j < cs.len() ==> (#[trigger] cs[j]).0 != field,
    ensures
        find_view(cs, field) == -1,
    decreases cs.len(),
{
    if cs.len() > 0 {
        assert forall|j: int|
            0 <= j < cs.drop_first().len() implies (#[trigger] cs.drop_first()[j]).0 != field by {
            assert(cs.drop_first()[j] == cs[j + 1]);
        }
        lemma_find_view_none(cs.drop_first(), field);
    }
}

/// Inserting one path into a view: walk the segments, add the missing
/// nodes with fresh sequential ids, and mark the terminal with `path_id`
/// unless an earlier path already marked it. Returns the new view, the new
/// node count, and how many segments the path has.
pub open spec fn insert_view(t: TreeView, path: Seq<u8>, from: int, path_id: usize, nodes: int) -> (
    TreeView,
    int,
    int,
)
    decreases (if path.len() >= from { path.len() - from + 1 } else { 0 }),
{
    let se = seg_end_of(path, from);
    let field = path.subrange(from, se);
    let fi = find_view(t.children, field);
    let cs1 = if fi >= 0 {
        t.children
    } else {
        t.children.push(
            (field, TreeView { node_id: Some(nodes as usize), path_id: None, children: Seq::empty() }),
        )
    };
    let k = if fi >= 0 {
        fi
    } else {
        t.children.len() as int
    };
    let nodes1 = if fi >= 0 {
        nodes
    } else {
        nodes + 1
    };
    let child = cs1[k].1;
    if se >= path.len() {
        let child2 = TreeView {
            path_id: if child.path_id is Some {
                child.path_id
            } else {
                Some(path_id)
            },
            ..child
        };
        (TreeView { children: cs1.update(k, (cs1[k].0, child2)), ..t }, nodes1, 1)
    } else if from <= se {
        let sub = insert_view(child, path, se + 1, path_id, nodes1);
        (TreeView { children: cs1.update(k, (cs1[k].0, sub.0)), ..t }, sub.1, sub.2 + 1)
    } else {
        (t, nodes, 0)
    }
}

/// The view of the whole tree built from the first `k` paths, with the node
/// count and the deepest nesting.
pub open spec fn tree_view_spec(paths: Seq<Vec<u8>>, k: int) -> (TreeView, int, int)
    decreases (if k >= 0 { k } else { 0 }),
{
    if k <= 0 {
        (TreeView { node_id: None, path_id: None, children: Seq::empty() }, 0, 0)
    } else {
        let prev = tree_view_spec(paths, k - 1);
        let ins = insert_view(prev.0, paths[k - 1]@, 2, (k - 1) as usize, prev.1);
        (
            ins.0,
            ins.1,
            if ins.2 > prev.2 {
                ins.2
            } else {
                prev.2
            },
        )
    }
}

/// Total length of the paths, in bytes.
pub open spec fn sum_lens(paths: Seq<Vec<u8>>) -> int
    decreases paths.len(),
{
    if paths.len() == 0 {
        0
    } else {
        sum_lens(paths.drop_last()) + paths.last()@.len()
    }
}

/// Every prefix of the sum is at most the sum.
proof fn lemma_sum_lens_prefix(paths: Seq<Vec<u8>>, k: int)
    requires
        0 <= k <= paths.len(),
    ensures
        sum_lens(paths.subrange(0, k)) <= sum_lens(paths),
        k < paths.len() ==> sum_lens(paths.subrange(0, k + 1)) == sum_lens(paths.subrange(0, k))
            + paths[k]@.len(),
    decreases paths.len() - k,
{
    if k < paths.len() {
        assert(paths.subrange(0, k + 1).drop_last() =~= paths.subrange(0, k));
        assert(paths.subrange(0, k + 1).last() == paths[k]);
        lemma_sum_lens_prefix(paths, k + 1);
    } else {
        assert(paths.subrange(0, k) =~= paths);
    }
}

/// The query tree, with the derived counts the extractor relies on.
pub struct QueryTree {
    /// The root; its id and path id are empty.
    pub root_node: QueryNode,
    /// The paths, in the order given.
    pub paths: Vec<Vec<u8>>,
    /// The deepest nesting among the paths.
    pub max_level: usize,
    /// How many nodes the tree holds, the root not counted.
    pub num_nodes: usize,
}

impl QueryTree {
    /// The invariant the extractor relies on: ids in range, the tree no
    /// taller than `max_level`.
    pub open spec fn wf(self) -> bool {
        &&& node_wf(self.root_node, self.num_nodes as int, self.paths@.len() as int)
        &&& depth_ok(self.root_node, self.max_level as int)
        &&& self.root_node.node_id is None
    }

    /// Builds the tree from the given paths; fails exactly when some path
    /// breaks the grammar. The total size of the paths must fit the machine.
    pub fn new(paths: &Vec<Vec<u8>>) -> (res: Result<QueryTree, Error>)
        requires
            sum_lens(paths@) <= usize::MAX,
        ensures
            res is Ok <==> (forall|k: int|
                0 <= k < paths@.len() ==> valid_query(#[trigger] paths@[k]@)),
            res matches Err(e) ==> e.spec_kind() == ErrorKind::InvalidQuery,
            res matches Ok(t) ==> t.wf() && t.paths@.len() == paths@.len(),
            res matches Ok(t) ==> forall|kk: int|
                0 <= kk < paths@.len() ==> (#[trigger] path_node(t.root_node, paths@[kk]@, 2))
                    is Some && path_node(t.root_node, paths@[kk]@, 2).unwrap().path_id is Some,
            res matches Ok(t) ==> node_view(t.root_node) == tree_view_spec(
                paths@,
                paths@.len() as int,
            ).0 && t.num_nodes as int == tree_view_spec(paths@, paths@.len() as int).1
                && t.max_level as int == tree_view_spec(paths@, paths@.len() as int).2,
            res matches Ok(t) ==> forall|j: int|
                0 <= j < paths@.len() ==> #[trigger] t.paths@[j]@ == paths@[j]@,
    {
        let mut tree = QueryTree {
            root_node: QueryNode::empty(None),
            paths: Vec::new(),
            max_level: 0,
            num_nodes: 0,
        };
        let mut k: usize = 0;
        proof {
            assert(paths@.subrange(0, 0) =~= Seq::<Vec<u8>>::empty());
            assert(children_view(tree.root_node, 0) =~= Seq::<(Seq<u8>, TreeView)>::empty());
        }
        while k < paths.len()
            invariant
                k <= paths@.len(),
                sum_lens(paths@) <= usize::MAX,
                tree.wf(),
                tree.paths@.len() == k,
                tree.num_nodes <= sum_lens(paths@.subrange(0, k as int)),
                sum_lens(paths@.subrange(0, k as int)) >= 0,
                forall|j: int| 0 <= j < k ==> valid_query(#[trigger] paths@[j]@),
                forall|j: int|
                    0 <= j < k ==> (#[trigger] path_node(tree.root_node, paths@[j]@, 2)) is Some
                        && path_node(tree.root_node, paths@[j]@, 2).unwrap().path_id is Some,
                node_view(tree.root_node) == tree_view_spec(paths@, k as int).0,
                tree.num_nodes as int == tree_view_spec(paths@, k as int).1,
                tree.max_level as int == tree_view_spec(paths@, k as int).2,
                forall|j: int| 0 <= j < k ==> #[trigger] tree.paths@[j]@ == paths@[j]@,
            decreases paths@.len() - k,
        {
            proof {
                lemma_sum_lens_prefix(paths@, k as int);
                lemma_sum_lens_prefix(paths@, k as int + 1);
            }
            let ghost pre_tree = tree;
            match tree.add_path(&paths[k]) {
                Ok(()) => {},
                Err(e) => {
                    return Err(e);
                },
            }
            proof {
                assert forall|j: int|
                    0 <= j < k + 1 implies (#[trigger] path_node(tree.root_node, paths@[j]@, 2))
                    is Some && path_node(tree.root_node, paths@[j]@, 2).unwrap().path_id
                    is Some by {
                    if j < k {
                        assert(path_node(pre_tree.root_node, paths@[j]@, 2) is Some && path_node(
                            pre_tree.root_node,
                            paths@[j]@,
                            2,
                        ).unwrap().path_id is Some);
                    }
                }
                let prev = tree_view_spec(paths@, k as int);
                let ins = insert_view(prev.0, paths@[k as int]@, 2, k, prev.1);
                assert(tree_view_spec(paths@, k as int + 1).0 == ins.0);
                assert(tree_view_spec(paths@, k as int + 1).1 == ins.1);
            }
            k += 1;
        }
        Ok(tree)
    }

    /// Adds one path to the tree; fails exactly when it breaks the grammar.
    fn add_path(&mut self, path: &Vec<u8>) -> (res: Result<(), Error>)
        requires
            old(self).wf(),
            old(self).num_nodes + path@.len() <= usize::MAX,
        ensures
            final(self).wf(),
            res is Ok <==> valid_query(path@),
            res matches Err(e) ==> e.spec_kind() == ErrorKind::InvalidQuery && *final(self) == *old(
                self,
            ),
            res is Ok ==> final(self).paths@.len() == old(self).paths@.len() + 1,
            res is Ok ==> (forall|j: int|
                0 <= j < old(self).paths@.len() ==> #[trigger] final(self).paths@[j] == old(
                    self,
                ).paths@[j]) && final(self).paths@[old(self).paths@.len() as int]@ == path@,
            final(self).num_nodes <= old(self).num_nodes + path@.len(),
            res is Ok ==> ({
                let ins = insert_view(
                    node_view(old(self).root_node),
                    path@,
                    2,
                    old(self).paths@.len() as usize,
                    old(self).num_nodes as int,
                );
                &&& node_view(final(self).root_node) == ins.0
                &&& final(self).num_nodes as int == ins.1
                &&& final(self).max_level as int == (if ins.2 > old(self).max_level as int {
                    ins.2
                } else {
                    old(self).max_level as int
                })
            }),
            res is Ok ==> path_node(final(self).root_node, path@, 2) is Some && path_node(
                final(self).root_node,
                path@,
                2,
            ).unwrap().path_id == (if path_node(old(self).root_node, path@, 2) is Some
                && path_node(old(self).root_node, path@, 2).unwrap().path_id is Some {
                path_node(old(self).root_node, path@, 2).unwrap().path_id
            } else {
                Some(old(self).paths@.len() as usize)
            }),
            forall|p2: Seq<u8>, f2: int|
                ((#[trigger] path_node(old(self).root_node, p2, f2)) is Some && path_node(
                    old(self).root_node,
                    p2,
                    f2,
                ).unwrap().path_id is Some) ==> (path_node(final(self).root_node, p2, f2) is Some
                    && path_node(final(self).root_node, p2, f2).unwrap().path_id == path_node(
                    old(self).root_node,
                    p2,
                    f2,
                ).unwrap().path_id),
    {
        if !is_valid_query_str(path.as_slice()) {
            return Err(Error::of(ErrorKind::InvalidQuery));
        }
        let path_id = self.paths.len();
        let mut num_nodes = self.num_nodes;
        let ghost root0 = self.root_node;
        proof {
            assert(2 < path@.len());
            if path@[2] == DOT {
                assert(path@[2 - 1] != DOT);
                assert(false);
            }
        }
        let level = insert_path(
            &mut self.root_node,
            path,
            2,
            path_id,
            &mut num_nodes,
            Ghost(self.paths@.len() as int),
        );
        self.num_nodes = num_nodes;
        proof {
            if level > self.max_level {
                lemma_depth_widen(root0, self.max_level as int, level as int);
                assert(depth_ok(root0, level as int));
            }
        }
        if level > self.max_level {
            self.max_level = level;
        }
        proof {
            assert(depth_ok(root0, self.max_level as int));
            assert(depth_ok(self.root_node, self.max_level as int));
        }
        self.paths.push(clone_bytes(path));
        Ok(())
    }

    /// The root node.
    pub fn as_node(&self) -> (res: &QueryNode)
        ensures
            res == &self.root_node,
    {
        &self.root_node
    }

    /// The deepest nesting among the paths.
    pub fn max_level(&self) -> (res: usize)
        ensures
            res == self.max_level,
    {
        self.max_level
    }

    /// How many paths the tree was built from.
    pub fn num_paths(&self) -> (res: usize)
        ensures
            res == self.paths@.len(),
    {
        self.paths.len()
    }

    /// How many nodes the tree holds, the root not counted.
    pub fn num_nodes(&self) -> (res: usize)
        ensures
            res == self.num_nodes,
    {
        self.num_nodes
    }
}

/// Copies a byte string.
fn clone_bytes(src: &Vec<u8>) -> (res: Vec<u8>)
    ensures
        res@ == src@,
{
    let mut res: Vec<u8> = Vec::new();
    let mut i: usize = 0;
    while i < src.len()
        invariant
            i <= src.len(),
            res@ == src@.subrange(0, i as int),
        decreases src.len() - i,
    {
        res.push(src[i]);
        i += 1;
    }
    proof {
        assert(res@ =~= src@);
    }
    res
}

/// Walks the segments of `path` from byte `from`, adding missing nodes, and
/// marks the last node with `path_id`. Returns how many segments it walked.
#[verifier::rlimit(100)]
fn insert_path(
    node: &mut QueryNode,
    path: &Vec<u8>,
    from: usize,
    path_id: usize,
    num_nodes: &mut usize,
    Ghost(paths_len): Ghost<int>,
) -> (level: usize)
    requires
        node_wf(*old(node), *old(num_nodes) as int, paths_len),
        2 <= from < path@.len(),
        path@[path@.len() - 1] != DOT,
        path@[from as int] != DOT,
        forall|i: int| 2 <= i < path@.len() && path@[i] == DOT ==> #[trigger] path@[i - 1] != DOT,
        path_id == paths_len,
        *old(num_nodes) + (path@.len() - from) <= usize::MAX,
    ensures
        node_wf(*final(node), *final(num_nodes) as int, paths_len + 1),
        *old(num_nodes) <= *final(num_nodes) <= *old(num_nodes) + (path@.len() - from),
        final(node).node_id == old(node).node_id,
        final(node).path_id == old(node).path_id,
        1 <= level <= path@.len() - from,
        forall|d: int|
            #[trigger] depth_ok(*old(node), d) && level <= d ==> depth_ok(*final(node), d),
        path_node(*final(node), path@, from as int) is Some,
        path_node(*final(node), path@, from as int).unwrap().path_id == (if path_node(
            *old(node),
            path@,
            from as int,
        ) is Some && path_node(*old(node), path@, from as int).unwrap().path_id is Some {
            path_node(*old(node), path@, from as int).unwrap().path_id
        } else {
            Some(path_id)
        }),
        forall|p2: Seq<u8>, f2: int|
            ((#[trigger] path_node(*old(node), p2, f2)) is Some && path_node(
                *old(node),
                p2,
                f2,
            ).unwrap().path_id is Some) ==> (path_node(*final(node), p2, f2) is Some && path_node(
                *final(node),
                p2,
                f2,
            ).unwrap().path_id == path_node(*old(node), p2, f2).unwrap().path_id),
        ({
            let ins = insert_view(
                node_view(*old(node)),
                path@,
                from as int,
                path_id,
                *old(num_nodes) as int,
            );
            &&& node_view(*final(node)) == ins.0
            &&& *final(num_nodes) as int == ins.1
            &&& level as int == ins.2
        }),
    decreases path@.len() - from,
{
    // find the end of this segment
    let n = path.len();
    let mut seg_end: usize = from;
    while seg_end < n && path[seg_end] != DOT
        invariant
            from <= seg_end <= n == path@.len(),
            forall|i: int| from <= i < seg_end ==> #[trigger] path@[i] != DOT,
            seg_end_of(path@, from as int) == seg_end_of(path@, seg_end as int),
        decreases n - seg_end,
    {
        seg_end += 1;
    }
    proof {
        assert(seg_end_of(path@, from as int) == seg_end as int);
    }
    let field = copy_range(path, from, seg_end);
    let ghost node0 = *node;
    let mut idx: usize = 0;
    let cn = node.children.len();
    let mut found = false;
    while idx < cn && !found
        invariant
            cn == node.children@.len(),
            idx <= cn,
            *node == node0,
            found ==> idx < cn && (#[trigger] node.children@[idx as int]).0@ == field@,
            forall|j: int| 0 <= j < idx ==> (#[trigger] node.children@[j]).0@ != field@,
        decreases (if found { 0int } else { 1int }), cn - idx,
    {
        if bytes_eq(&node.children[idx].0, field.as_slice()) {
            found = true;
        } else {
            idx += 1;
        }
    }
    if !found {
        let id = *num_nodes;
        *num_nodes = *num_nodes + 1;
        let fresh = QueryNode::empty(Some(id));
        node.children.push((field, fresh));
        proof {
            assert forall|j: int|
                0 <= j < node.children@.len() implies (#[trigger] node.children@[j].1).node_id
                is Some && node.children@[j].1.node_id.unwrap() < *num_nodes && node_wf(
                node.children@[j].1,
                *num_nodes as int,
                paths_len,
            ) by {
                if j < node0.children@.len() {
                    assert(node.children@[j] == node0.children@[j]);
                    lemma_wf_index(
                        node0,
                        node0.children@.len() as int,
                        *old(num_nodes) as int,
                        paths_len,
                        j,
                    );
                    lemma_node_wf_widen(
                        node0.children@[j].1,
                        *old(num_nodes) as int,
                        paths_len,
                        *num_nodes as int,
                        paths_len,
                    );
                } else {
                    assert(node.children@[j].1 == fresh);
                    assert(children_depth_ok(fresh, 0, 0));
                }
            }
            lemma_wf_build(*node, node.children@.len() as int, *num_nodes as int, paths_len);
            assert(node_wf(*node, *num_nodes as int, paths_len));
        }
    }
    let k = if found {
        idx
    } else {
        node.children.len() - 1
    };
    let ghost node1 = *node;
    let ghost nn1 = *num_nodes;
    proof {
        if found {
            assert(node1 == node0 && nn1 == *old(num_nodes));
        }
        assert(node_wf(node1, nn1 as int, paths_len));
        lemma_wf_index(node1, node1.children@.len() as int, nn1 as int, paths_len, k as int);
    }
    let level: usize;
    let ghost child0 = node.children@[k as int].1;
    if seg_end >= n {
        // last segment: mark the node; the first path to end here keeps it
        let entry = &mut node.children[k];
        let child = &mut entry.1;
        if child.path_id.is_none() {
            child.path_id = Some(path_id);
        }
        level = 1;
        proof {
            assert(child.children@ =~= child0.children@);
        }
    } else {
        let entry = &mut node.children[k];
        let child = &mut entry.1;
        proof {
            assert(path@[seg_end as int] == DOT);
            assert(seg_end as int != n - 1);
            assert(seg_end + 1 < n);
            if path@[seg_end + 1] == DOT {
                assert(path@[seg_end + 1 - 1] != DOT);
                assert(false);
            }
        }
        let sub = insert_path(child, path, seg_end + 1, path_id, num_nodes, Ghost(paths_len));
        level = sub + 1;
    }
    proof {
        let cs2 = node.children@;
        let child2 = cs2[k as int].1;
        assert(cs2 =~= node1.children@.update(k as int, (node1.children@[k as int].0, child2)));
        assert(node_wf(child0, nn1 as int, paths_len));
        // the marked or freshly grown child is well formed
        assert(node_wf(child2, *num_nodes as int, paths_len + 1)) by {
            if seg_end >= n {
                assert(child2.children@ == child0.children@);
                assert(child2.path_id == Some(path_id) || child2.path_id == child0.path_id);
                assert forall|m: int|
                    0 <= m < child2.children@.len() implies (#[trigger] child2.children@[m].1).node_id
                    is Some && child2.children@[m].1.node_id.unwrap() < *num_nodes && node_wf(
                    child2.children@[m].1,
                    *num_nodes as int,
                    paths_len + 1,
                ) by {
                    lemma_wf_index(child0, child0.children@.len() as int, nn1 as int, paths_len, m);
                    lemma_node_wf_widen(
                        child0.children@[m].1,
                        nn1 as int,
                        paths_len,
                        *num_nodes as int,
                        paths_len + 1,
                    );
                }
                lemma_wf_build(child2, child2.children@.len() as int, *num_nodes as int, paths_len + 1);
            }
        }
        assert forall|j: int|
            0 <= j < cs2.len() implies (#[trigger] cs2[j].1).node_id is Some
            && cs2[j].1.node_id.unwrap() < *num_nodes && node_wf(
            cs2[j].1,
            *num_nodes as int,
            paths_len + 1,
        ) by {
            if j != k {
                assert(cs2[j] == node1.children@[j]);
                lemma_wf_index(node1, node1.children@.len() as int, nn1 as int, paths_len, j);
                lemma_node_wf_widen(
                    node1.children@[j].1,
                    nn1 as int,
                    paths_len,
                    *num_nodes as int,
                    paths_len + 1,
                );
            } else {
                assert(child2.node_id == child0.node_id);
            }
        }
        lemma_wf_build(*node, cs2.len() as int, *num_nodes as int, paths_len + 1);
        assert(node_wf(*node, *num_nodes as int, paths_len + 1));
        // the inserted path resolves to a marked node
        let se = seg_end as int;
        let fld = path@.subrange(from as int, se);
        assert(field@ == fld);
        assert(find_idx(node1.children@, fld) == k as int) by {
            if found {
                lemma_find_idx_at(node1.children@, fld, k as int);
            } else {
                assert forall|j: int| 0 <= j < k implies (#[trigger] node1.children@[j]).0@ != fld
                    by {
                    assert(node1.children@[j] == node0.children@[j]);
                }
                assert(node1.children@[k as int].0@ == fld);
                lemma_find_idx_at(node1.children@, fld, k as int);
            }
        }
        lemma_seq_find_update(node1.children@, k as int, child2, fld);
        assert(seq_find(cs2, fld) == Some(child2));
        lemma_seg_end_bounds(path@, from as int);
        // where this path resolved before the insertion
        if found {
            lemma_seq_find_at(node0.children@, fld, k as int);
            assert(seq_find(node0.children@, fld) == Some(child0));
        } else {
            assert forall|j: int|
                0 <= j < node0.children@.len() implies (#[trigger] node0.children@[j]).0@ != fld
                by {}
            lemma_seq_find_none(node0.children@, fld);
        }
        if seg_end >= n {
            assert(path_node(*node, path@, from as int) == Some(child2));
            assert(child2.path_id is Some);
            if found {
                assert(path_node(node0, path@, from as int) == Some(child0));
            } else {
                assert(path_node(node0, path@, from as int) is None);
            }
        } else {
            assert(path_node(*node, path@, from as int) == path_node(child2, path@, se + 1));
            if found {
                assert(path_node(node0, path@, from as int) == path_node(child0, path@, se + 1));
            } else {
                assert(path_node(node0, path@, from as int) is None);
                assert(path_node(child0, path@, se + 1) is None) by {
                    assert(child0.children@.len() == 0);
                }
            }
        }
        // every path already in the tree stays resolved and keeps its mark
        assert forall|p2: Seq<u8>, f2: int|
            ((#[trigger] path_node(node0, p2, f2)) is Some && path_node(
                node0,
                p2,
                f2,
            ).unwrap().path_id is Some) implies (path_node(*node, p2, f2) is Some && path_node(
            *node,
            p2,
            f2,
        ).unwrap().path_id == path_node(node0, p2, f2).unwrap().path_id) by {
            let se2 = seg_end_of(p2, f2);
            lemma_seg_end_bounds(p2, f2);
            let fld2 = p2.subrange(f2, se2);
            let c2o = seq_find(node0.children@, fld2);
            assert(c2o is Some);
            let c2 = c2o.unwrap();
            if !found {
                assert(node1.children@ == node0.children@.push(node1.children@[k as int]));
                lemma_seq_find_push(node0.children@, node1.children@[k as int], fld2);
                assert(seq_find(node1.children@, fld2) == Some(c2));
            }
            lemma_seq_find_update(node1.children@, k as int, child2, fld2);
            let fi = find_idx(node1.children@, fld2);
            lemma_find_idx(node1.children@, fld2);
            assert(seq_find(node1.children@, fld2) == Some(c2));
            if fi == k {
                assert(node1.children@[k as int].1 == c2);
                assert(c2 == child0);
                assert(seq_find(cs2, fld2) == Some(child2));
                if se2 >= p2.len() {
                    assert(child2.path_id == child0.path_id);
                } else {
                    if seg_end >= n {
                        lemma_path_node_same_children(child0, child2, p2, se2 + 1);
                    } else {
                        assert(path_node(child0, p2, se2 + 1) is Some && path_node(
                            child0,
                            p2,
                            se2 + 1,
                        ).unwrap().path_id is Some);
                        assert(path_node(child2, p2, se2 + 1) is Some && path_node(
                            child2,
                            p2,
                            se2 + 1,
                        ).unwrap().path_id == path_node(child0, p2, se2 + 1).unwrap().path_id);
                    }
                }
            } else {
                assert(seq_find(cs2, fld2) == Some(c2));
            }
        }
        // depth bound
        assert forall|d: int| #[trigger] depth_ok(node0, d) && level <= d implies depth_ok(
            *node,
            d,
        ) by {
            assert forall|j: int|
                0 <= j < cs2.len() implies d >= 1 && depth_ok(#[trigger] cs2[j].1, d - 1) by {
                if j == k {
                    assert(depth_ok(child0, d - 1)) by {
                        if found {
                            assert(node0.children@[k as int].1 == child0);
                            lemma_depth_index(node0, node0.children@.len() as int, d, k as int);
                        } else {
                            assert(child0.children@.len() == 0);
                            assert(children_depth_ok(child0, 0, d - 1));
                        }
                    }
                    if seg_end >= n {
                        assert(child2.children@ == child0.children@);
                        lemma_depth_same_children(child0, child2, d - 1);
                    } else {
                        assert(depth_ok(child2, d - 1));
                    }
                } else {
                    assert(cs2[j] == node1.children@[j]);
                    if j < node0.children@.len() {
                        assert(node1.children@[j] == node0.children@[j]);
                        lemma_depth_index(node0, node0.children@.len() as int, d, j);
                    } else {
                        assert(false);
                    }
                }
            }
            lemma_depth_build(*node, cs2.len() as int, d);
        }
        // the construction matches the view-level insertion step for step
        let tv0 = node_view(node0);
        let len0 = node0.children@.len() as int;
        let len1 = node1.children@.len() as int;
        lemma_children_view_index(node0, len0);
        lemma_children_view_index(node1, len1);
        let fld_v = path@.subrange(from as int, seg_end as int);
        assert(field@ == fld_v);
        assert(find_view(tv0.children, fld_v) == (if found {
            k as int
        } else {
            -1int
        })) by {
            if found {
                assert(tv0.children[k as int].0 == fld_v);
                assert forall|j: int| 0 <= j < k implies (#[trigger] tv0.children[j]).0 != fld_v
                    by {
                    assert(tv0.children[j] == (
                        node0.children@[j].0@,
                        node_view(node0.children@[j].1),
                    ));
                    assert(node0.children@[j].0@ != fld_v);
                }
                lemma_find_view_at(tv0.children, fld_v, k as int);
            } else {
                assert forall|j: int|
                    0 <= j < tv0.children.len() implies (#[trigger] tv0.children[j]).0 != fld_v by {
                    assert(tv0.children[j] == (
                        node0.children@[j].0@,
                        node_view(node0.children@[j].1),
                    ));
                    assert(node0.children@[j].0@ != fld_v);
                }
                lemma_find_view_none(tv0.children, fld_v);
            }
        }
        let cs1 = if found {
            tv0.children
        } else {
            tv0.children.push(
                (
                    fld_v,
                    TreeView {
                        node_id: Some((*old(num_nodes)) as usize),
                        path_id: None,
                        children: Seq::empty(),
                    },
                ),
            )
        };
        assert(children_view(node1, len1) == cs1) by {
            if found {
            } else {
                lemma_children_view_prefix(node1, node0, len0);
                assert(node_view(node1.children@[len0].1) == TreeView {
                    node_id: Some((*old(num_nodes)) as usize),
                    path_id: None,
                    children: Seq::empty(),
                }) by {
                    assert(node1.children@[len0].1.children@.len() == 0);
                    assert(children_view(node1.children@[len0].1, 0) =~= Seq::<
                        (Seq<u8>, TreeView),
                    >::empty());
                }
                assert(node1.children@[len0].0@ == fld_v);
                assert(children_view(node1, len1) =~= cs1);
            }
        }
        assert(cs1[k as int].1 == node_view(child0));
        assert(cs1[k as int].0 == node1.children@[k as int].0@);
        if seg_end >= n {
            assert(node_view(child2) == TreeView {
                path_id: if node_view(child0).path_id is Some {
                    node_view(child0).path_id
                } else {
                    Some(path_id)
                },
                ..node_view(child0)
            }) by {
                assert(child2.children@ == child0.children@);
                lemma_children_view_prefix(child2, child0, child0.children@.len() as int);
            }
        }
        lemma_children_view_index(*node, cs2.len() as int);
        assert(children_view(*node, cs2.len() as int) == cs1.update(
            k as int,
            (cs1[k as int].0, node_view(child2)),
        )) by {
            assert forall|j: int|
                0 <= j < cs2.len() implies #[trigger] children_view(*node, cs2.len() as int)[j]
                == cs1.update(k as int, (cs1[k as int].0, node_view(child2)))[j] by {
                if j != k {
                    assert(cs2[j] == node1.children@[j]);
                } else {
                    assert(cs2[j].0 == node1.children@[j].0);
                    assert(cs2[j].1 == child2);
                }
            }
            assert(children_view(*node, cs2.len() as int) =~= cs1.update(
                k as int,
                (cs1[k as int].0, node_view(child2)),
            ));
        }
        let ins = insert_view(tv0, path@, from as int, path_id, *old(num_nodes) as int);
        assert(node_view(*node) == ins.0);
        assert(*num_nodes as int == ins.1);
        assert(level as int == ins.2);
    }
    level
}

/// Copies `src[from..to]`.
fn copy_range(src: &Vec<u8>, from: usize, to: usize) -> (res: Vec<u8>)
    requires
        from <= to <= src@.len(),
    ensures
        res@ == src@.subrange(from as int, to as int),
{
    let mut res: Vec<u8> = Vec::new();
    let mut i: usize = from;
    while i < to
        invariant
            from <= i <= to <= src@.len(),
            res@ == src@.subrange(from as int, i as int),
        decreases to - i,
    {
        res.push(src[i]);
        i += 1;
    }
    proof {
        assert(res@ =~= src@.subrange(from as int, to as int));
    }
    res
}

} // verus!
