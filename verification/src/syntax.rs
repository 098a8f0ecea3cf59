//! The syntax tree the scorer reads: the parser's nodes as plain values, in
//! preorder, each with its depth below the root. Parent, children and sibling
//! relations are derived from that order, once, when the tree is built.
use vstd::prelude::*;
use vstd::utf8::{decode_utf8, valid_utf8};
use crate::text::{decode, str_eq};

verus! {

/// One node of a parsed file, as the parser reports it.
pub struct SyntaxNode {
    /// The grammar's name for the node, such as `if_statement`.
    pub kind: String,
    /// The field under which the node hangs from its parent, if any.
    pub field: Option<String>,
    /// Distance from the root, which has depth 0.
    pub depth: usize,
    /// Named nodes are grammar rules; anonymous ones are literal tokens.
    pub named: bool,
    /// Zero-based row on which the node starts.
    pub row: usize,
    /// Byte offset of the node's first byte in the source.
    pub start: usize,
    /// Byte offset just past the node's last byte in the source.
    pub end: usize,
}

/// What a [`SyntaxNode`] holds, as mathematical values.
pub struct NodeView {
    pub kind: Seq<char>,
    pub field: Option<Seq<char>>,
    pub depth: usize,
    pub named: bool,
    pub row: usize,
    pub start: usize,
    pub end: usize,
}

impl View for SyntaxNode {
    type V = NodeView;

    open spec fn view(&self) -> NodeView {
        NodeView {
            kind: self.kind@,
            field: match self.field {
                Some(f) => Some(f@),
                None => None,
            },
            depth: self.depth,
            named: self.named,
            row: self.row,
            start: self.start,
            end: self.end,
        }
    }
}

pub open spec fn nodes_view(nodes: Seq<SyntaxNode>) -> Seq<NodeView> {
    nodes.map_values(|n: SyntaxNode| n@)
}

/// A preorder listing of a tree: a single root at depth 0, and every later node
/// at most one level below the node listed just before it.
pub open spec fn preorder_ok(nv: Seq<NodeView>) -> bool {
    &&& nv.len() > 0
    &&& nv[0].depth == 0
    &&& forall|j: int| 1 <= j < nv.len() ==> 1 <= #[trigger] nv[j].depth <= nv[j - 1].depth + 1
}

/// The last node before position `n` that lies at depth `d`, or -1.
pub open spec fn last_at_depth(nv: Seq<NodeView>, n: int, d: int) -> int
    decreases n,
{
    if n <= 0 {
        -1
    } else if nv[n - 1].depth == d {
        n - 1
    } else {
        last_at_depth(nv, n - 1, d)
    }
}

/// In preorder, a node's parent is the closest earlier node one level up.
pub open spec fn parent_of(nv: Seq<NodeView>, j: int) -> int {
    if j <= 0 {
        -1
    } else {
        last_at_depth(nv, j, nv[j].depth - 1)
    }
}

/// The children of `i` among the first `n` nodes, in source order.
pub open spec fn children_upto(nv: Seq<NodeView>, i: int, n: int) -> Seq<int>
    decreases n,
{
    if n <= 0 {
        seq![]
    } else if parent_of(nv, n - 1) == i {
        children_upto(nv, i, n - 1).push(n - 1)
    } else {
        children_upto(nv, i, n - 1)
    }
}

/// All children of `i`, named and anonymous, in source order.
pub open spec fn children_of(nv: Seq<NodeView>, i: int) -> Seq<int> {
    children_upto(nv, i, nv.len() as int)
}

/// The sibling just before `j` under the same parent.
pub open spec fn prev_sibling_of(nv: Seq<NodeView>, j: int) -> Option<int> {
    let p = parent_of(nv, j);
    if p < 0 || !children_of(nv, p).contains(j) {
        None
    } else {
        let k = children_of(nv, p).index_of(j);
        if k > 0 {
            Some(children_of(nv, p)[k - 1])
        } else {
            None
        }
    }
}

pub proof fn lemma_last_at_depth(nv: Seq<NodeView>, n: int, d: int)
    requires
        n >= 0,
    ensures
        -1 <= last_at_depth(nv, n, d) < n,
        last_at_depth(nv, n, d) >= 0 ==> nv[last_at_depth(nv, n, d)].depth == d,
    decreases n,
{
    if n > 0 && nv[n - 1].depth != d {
        lemma_last_at_depth(nv, n - 1, d);
    }
}

/// In a well-formed preorder, any depth between the root's and a node's own
/// is taken by some node at or before it.
proof fn lemma_depth_reached(nv: Seq<NodeView>, m: int, d: int)
    requires
        preorder_ok(nv),
        0 <= m < nv.len(),
        0 <= d <= nv[m].depth,
    ensures
        last_at_depth(nv, m + 1, d) >= 0,
    decreases m,
{
    if nv[m].depth != d {
        assert(m > 0);
        assert(nv[m].depth <= nv[m - 1].depth + 1);
        lemma_depth_reached(nv, m - 1, d);
    }
}

pub proof fn lemma_parent_of(nv: Seq<NodeView>, j: int)
    requires
        preorder_ok(nv),
        1 <= j < nv.len(),
    ensures
        0 <= parent_of(nv, j) < j,
        nv[parent_of(nv, j)].depth == nv[j].depth - 1,
{
    assert(1 <= nv[j].depth <= nv[j - 1].depth + 1);
    lemma_depth_reached(nv, j - 1, nv[j].depth - 1);
    lemma_last_at_depth(nv, j, nv[j].depth - 1);
}

/// Children come after their parent, within the tree, in increasing order, and
/// every node whose parent is `i` is among them.
pub proof fn lemma_children_upto(nv: Seq<NodeView>, i: int, n: int)
    requires
        n <= nv.len(),
    ensures
        forall|k: int|
            0 <= k < children_upto(nv, i, n).len() ==> {
                &&& i < #[trigger] children_upto(nv, i, n)[k] < n
                &&& parent_of(nv, children_upto(nv, i, n)[k]) == i
            },
        forall|a: int, b: int|
            0 <= a < b < children_upto(nv, i, n).len() ==> children_upto(nv, i, n)[a]
                < children_upto(nv, i, n)[b],
        forall|j: int|
            0 <= j < n && parent_of(nv, j) == i ==> children_upto(nv, i, n).contains(j),
    decreases n,
{
    if n > 0 {
        lemma_children_upto(nv, i, n - 1);
        if n - 1 > 0 {
            lemma_last_at_depth(nv, n - 1, nv[n - 1].depth - 1);
        }
        let s = children_upto(nv, i, n);
        let r = children_upto(nv, i, n - 1);
        if parent_of(nv, n - 1) == i {
            assert(s == r.push(n - 1));
            assert forall|j: int| 0 <= j < n && parent_of(nv, j) == i implies s.contains(j) by {
                if j == n - 1 {
                    assert(s[s.len() - 1] == j);
                } else {
                    let k = choose|k: int| 0 <= k < r.len() && r[k] == j;
                    assert(s[k] == j);
                }
            }
        }
    }
}

pub proof fn lemma_children_of(nv: Seq<NodeView>, i: int)
    ensures
        forall|k: int|
            0 <= k < children_of(nv, i).len() ==> {
                &&& i < #[trigger] children_of(nv, i)[k] < nv.len()
                &&& parent_of(nv, children_of(nv, i)[k]) == i
            },
        forall|a: int, b: int|
            0 <= a < b < children_of(nv, i).len() ==> children_of(nv, i)[a] < children_of(
                nv,
                i,
            )[b],
        forall|j: int|
            0 <= j < nv.len() && parent_of(nv, j) == i ==> children_of(nv, i).contains(j),
{
    lemma_children_upto(nv, i, nv.len() as int);
}

/// The sibling before a node is an earlier node.
pub proof fn lemma_prev_sibling(nv: Seq<NodeView>, j: int)
    ensures
        prev_sibling_of(nv, j) matches Some(s) ==> 0 <= s < j,
{
    let p = parent_of(nv, j);
    if p >= 0 {
        lemma_children_of(nv, p);
        let c = children_of(nv, p);
        if c.contains(j) {
            let k = c.index_of(j);
            if k > 0 {
                assert(c[k] == j);
                assert(c[k - 1] < c[k]);
            }
        }
    }
}

/// The first of `kids`, from position `k` on, that hangs under field `f`.
pub open spec fn first_in_field(nv: Seq<NodeView>, kids: Seq<int>, k: int, f: Seq<char>) -> Option<
    int,
>
    decreases kids.len() - k,
{
    if k < 0 || k >= kids.len() {
        None
    } else if nv[kids[k]].field == Some(f) {
        Some(kids[k])
    } else {
        first_in_field(nv, kids, k + 1, f)
    }
}

/// The first child of `i` under field `f`.
pub open spec fn field_child(nv: Seq<NodeView>, i: int, f: Seq<char>) -> Option<int> {
    first_in_field(nv, children_of(nv, i), 0, f)
}

/// The first named one of `kids`, from position `k` on.
pub open spec fn first_named_in(nv: Seq<NodeView>, kids: Seq<int>, k: int) -> Option<int>
    decreases kids.len() - k,
{
    if k < 0 || k >= kids.len() {
        None
    } else if nv[kids[k]].named {
        Some(kids[k])
    } else {
        first_named_in(nv, kids, k + 1)
    }
}

/// The first named child of `i`.
pub open spec fn first_named_child(nv: Seq<NodeView>, i: int) -> Option<int> {
    first_named_in(nv, children_of(nv, i), 0)
}

/// An index as a mathematical integer.
pub open spec fn as_index(o: Option<usize>) -> Option<int> {
    match o {
        Some(u) => Some(u as int),
        None => None,
    }
}

/// Every node's span lies within a source of `len` bytes, and its row leaves
/// room for a one-based line number.
pub open spec fn fits_source(nv: Seq<NodeView>, len: int) -> bool {
    forall|i: int| 0 <= i < nv.len() ==> fits_span(#[trigger] nv[i], len)
}

pub open spec fn fits_span(node: NodeView, len: int) -> bool {
    node.start <= node.end <= len && node.row < usize::MAX
}

/// A node's text: its bytes in the source, decoded as UTF-8, or `None` where
/// they are not valid UTF-8.
pub open spec fn node_text(nv: Seq<NodeView>, src: Seq<u8>, i: int) -> Option<Seq<char>> {
    let bytes = src.subrange(nv[i].start as int, nv[i].end as int);
    if valid_utf8(bytes) {
        Some(decode_utf8(bytes))
    } else {
        None
    }
}

proof fn lemma_first_in_field(nv: Seq<NodeView>, kids: Seq<int>, k: int, f: Seq<char>)
    ensures
        first_in_field(nv, kids, k, f) matches Some(c) ==> kids.contains(c),
    decreases kids.len() - k,
{
    if !(k < 0 || k >= kids.len()) && nv[kids[k]].field != Some(f) {
        lemma_first_in_field(nv, kids, k + 1, f);
    }
}

proof fn lemma_first_named_in(nv: Seq<NodeView>, kids: Seq<int>, k: int)
    ensures
        first_named_in(nv, kids, k) matches Some(c) ==> kids.contains(c),
    decreases kids.len() - k,
{
    if !(k < 0 || k >= kids.len()) && !nv[kids[k]].named {
        lemma_first_named_in(nv, kids, k + 1);
    }
}

/// A field child or a first named child is a child: it comes after its parent
/// and within the tree.
pub proof fn lemma_child_lookups(nv: Seq<NodeView>, i: int)
    ensures
        forall|f: Seq<char>|
            #[trigger] field_child(nv, i, f) matches Some(c) ==> i < c < nv.len(),
        first_named_child(nv, i) matches Some(c) ==> i < c < nv.len(),
{
    lemma_children_of(nv, i);
    assert forall|f: Seq<char>| #[trigger] field_child(nv, i, f) is Some implies i
        < field_child(nv, i, f)->0 < nv.len() by {
        lemma_first_in_field(nv, children_of(nv, i), 0, f);
    }
    lemma_first_named_in(nv, children_of(nv, i), 0);
}

/// A parsed file: its nodes in preorder with the relations between them.
pub struct SyntaxTree {
    nodes: Vec<SyntaxNode>,
    parent: Vec<usize>,
    children: Vec<Vec<usize>>,
    position: Vec<usize>,
}

impl View for SyntaxTree {
    type V = Seq<NodeView>;

    closed spec fn view(&self) -> Seq<NodeView> {
        nodes_view(self.nodes@)
    }
}

impl SyntaxTree {
    #[verifier::type_invariant]
    closed spec fn wf(&self) -> bool {
        let nv = nodes_view(self.nodes@);
        &&& preorder_ok(nv)
        &&& self.parent@.len() == nv.len()
        &&& self.children@.len() == nv.len()
        &&& self.position@.len() == nv.len()
        &&& forall|j: int| 1 <= j < nv.len() ==> #[trigger] self.parent@[j] == parent_of(nv, j)
        &&& forall|i: int|
            0 <= i < nv.len() ==> #[trigger] self.children@[i]@.len() == children_of(nv, i).len()
        &&& forall|i: int, k: int|
            0 <= i < nv.len() && 0 <= k < children_of(nv, i).len() ==> #[trigger] self.children@[i]@[k]
                == children_of(nv, i)[k]
        &&& forall|j: int|
            1 <= j < nv.len() ==> #[trigger] self.position@[j] < children_of(
                nv,
                parent_of(nv, j),
            ).len() && children_of(nv, parent_of(nv, j))[self.position@[j] as int] == j
    }

    /// Builds the tree from its nodes in preorder; `None` where the listing is
    /// not a preorder of a single tree.
    pub fn from_nodes(nodes: Vec<SyntaxNode>) -> (tree: Option<SyntaxTree>)
        ensures
            tree is Some <==> preorder_ok(nodes_view(nodes@)),
            tree matches Some(t) ==> t@ == nodes_view(nodes@),
    {
        let ghost nv = nodes_view(nodes@);
        let len = nodes.len();
        if len == 0 || nodes[0].depth != 0 {
            return None;
        }
        let mut j: usize = 1;
        while j < len
            invariant
                1 <= j <= len,
                len == nodes@.len(),
                nv == nodes_view(nodes@),
                nv[0].depth == 0,
                forall|k: int| 1 <= k < j ==> 1 <= #[trigger] nv[k].depth <= nv[k - 1].depth + 1,
            decreases len - j,
        {
            if nodes[j].depth == 0 || nodes[j].depth - 1 > nodes[j - 1].depth {
                assert(!(1 <= nv[j as int].depth <= nv[j - 1].depth + 1));
                return None;
            }
            j = j + 1;
        }
        assert(preorder_ok(nv));
        // `open[d]` is the last node seen at depth `d`, for every depth up to the
        // current node's.
        let mut open: Vec<usize> = Vec::new();
        open.push(0);
        let mut parent: Vec<usize> = Vec::new();
        parent.push(0);
        let mut position: Vec<usize> = Vec::new();
        position.push(0);
        let mut children: Vec<Vec<usize>> = Vec::new();
        let mut i: usize = 0;
        while i < len
            invariant
                i <= len,
                len == nodes@.len(),
                children@.len() == i,
                forall|k: int| 0 <= k < i ==> #[trigger] children@[k]@.len() == 0,
            decreases len - i,
        {
            children.push(Vec::new());
            i = i + 1;
        }
        proof {
            assert forall|p: int| 0 <= p < len implies children_upto(nv, p, 1) =~= seq![] by {
                assert(children_upto(nv, p, 0) =~= seq![]);
            }
        }
        let mut j: usize = 1;
        while j < len
            invariant
                1 <= j <= len,
                len == nodes@.len(),
                nv == nodes_view(nodes@),
                preorder_ok(nv),
                open@.len() == nv[j - 1].depth + 1,
                forall|e: int|
                    0 <= e < open@.len() ==> #[trigger] open@[e] == last_at_depth(nv, j as int, e),
                parent@.len() == j,
                position@.len() == j,
                children@.len() == len,
                forall|k: int| 1 <= k < j ==> #[trigger] parent@[k] == parent_of(nv, k),
                forall|p: int|
                    0 <= p < len ==> #[trigger] children@[p]@.len() == children_upto(
                        nv,
                        p,
                        j as int,
                    ).len(),
                forall|p: int, k: int|
                    0 <= p < len && 0 <= k < children_upto(nv, p, j as int).len()
                        ==> #[trigger] children@[p]@[k] == children_upto(nv, p, j as int)[k],
                forall|k: int|
                    1 <= k < j ==> #[trigger] position@[k] < children_upto(
                        nv,
                        parent_of(nv, k),
                        j as int,
                    ).len() && children_upto(nv, parent_of(nv, k), j as int)[position@[k] as int]
                        == k,
            decreases len - j,
        {
            let d = nodes[j].depth;
            assert(1 <= nv[j as int].depth <= nv[j - 1].depth + 1);
            proof {
                lemma_parent_of(nv, j as int);
            }
            let p = open[d - 1];
            assert(p as int == parent_of(nv, j as int));
            let ghost before = children@;
            let pos = children[p].len();
            children[p].push(j);
            proof {
                assert forall|q: int|
                    0 <= q < len implies #[trigger] children@[q]@.len() == children_upto(
                    nv,
                    q,
                    j + 1,
                ).len() by {
                    if q != p {
                        assert(children@[q] == before[q]);
                    }
                }
                assert forall|q: int, k: int|
                    0 <= q < len && 0 <= k < children_upto(nv, q, j + 1).len()
                        implies #[trigger] children@[q]@[k] == children_upto(nv, q, j + 1)[k] by {
                    if q != p {
                        assert(children@[q] == before[q]);
                    }
                }
                assert forall|k: int|
                    1 <= k < j + 1 implies #[trigger] position@.push(pos)[k] < children_upto(
                    nv,
                    parent_of(nv, k),
                    j + 1,
                ).len() && children_upto(nv, parent_of(nv, k), j + 1)[position@.push(
                    pos,
                )[k] as int] == k by {
                    if k < j {
                        lemma_last_at_depth(nv, k, nv[k].depth - 1);
                        assert(position@.push(pos)[k] == position@[k]);
                    } else {
                        assert(position@.push(pos)[k] == pos);
                    }
                }
            }
            parent.push(p);
            position.push(pos);
            open.truncate(d);
            open.push(j);
            j = j + 1;
        }
        proof {
            assert forall|i: int| 0 <= i < len implies children_upto(nv, i, len as int)
                == children_of(nv, i) by {}
        }
        let tree = SyntaxTree { nodes, parent, children, position };
        Some(tree)
    }

    /// The number of nodes.
    pub fn len(&self) -> (n: usize)
        ensures
            n == self@.len(),
            n > 0,
    {
        proof {
            use_type_invariant(self);
        }
        self.nodes.len()
    }

    /// The node at preorder position `i`.
    pub fn node(&self, i: usize) -> (node: &SyntaxNode)
        requires
            i < self@.len(),
        ensures
            node@ == self@[i as int],
    {
        &self.nodes[i]
    }

    /// The children of `i`, named and anonymous, in source order.
    pub fn children(&self, i: usize) -> (kids: &Vec<usize>)
        requires
            i < self@.len(),
        ensures
            kids@.len() == children_of(self@, i as int).len(),
            forall|k: int|
                0 <= k < kids@.len() ==> #[trigger] kids@[k] as int == children_of(self@, i as int)[k],
    {
        proof {
            use_type_invariant(self);
        }
        &self.children[i]
    }

    /// The sibling just before `j` under the same parent.
    pub fn prev_sibling(&self, j: usize) -> (sibling: Option<usize>)
        requires
            j < self@.len(),
        ensures
            match sibling {
                Some(s) => prev_sibling_of(self@, j as int) == Some(s as int),
                None => prev_sibling_of(self@, j as int) is None,
            },
    {
        proof {
            use_type_invariant(self);
        }
        let ghost nv = self@;
        if j == 0 {
            return None;
        }
        proof {
            lemma_parent_of(nv, j as int);
            lemma_children_of(nv, parent_of(nv, j as int));
        }
        let p = self.parent[j];
        let k = self.position[j];
        let ghost c = children_of(nv, p as int);
        proof {
            assert(c[k as int] == j);
            assert(c.contains(j as int));
            let idx = c.index_of(j as int);
            assert(c[idx] == j);
            if idx != k {
                if idx < k {
                    assert(c[idx] < c[k as int]);
                } else {
                    assert(c[k as int] < c[idx]);
                }
            }
        }
        if k == 0 {
            None
        } else {
            Some(self.children[p][k - 1])
        }
    }

    /// The first child of `i` under `field`.
    pub fn child_by_field(&self, i: usize, field: &str) -> (child: Option<usize>)
        requires
            i < self@.len(),
        ensures
            as_index(child) == field_child(self@, i as int, field@),
    {
        let kids = self.children(i);
        let ghost c = children_of(self@, i as int);
        proof {
            lemma_children_of(self@, i as int);
        }
        let mut k: usize = 0;
        while k < kids.len()
            invariant
                i < self@.len(),
                kids@.len() == c.len(),
                forall|q: int| 0 <= q < kids@.len() ==> #[trigger] kids@[q] as int == c[q],
                forall|q: int| 0 <= q < c.len() ==> #[trigger] c[q] < self@.len(),
                k <= kids@.len(),
                field_child(self@, i as int, field@) == first_in_field(self@, c, k as int, field@),
            decreases kids@.len() - k,
        {
            let j = kids[k];
            assert(c[k as int] == j);
            let node = self.node(j);
            let hit = match &node.field {
                Some(f) => str_eq(f.as_str(), field),
                None => false,
            };
            if hit {
                return Some(j);
            }
            k = k + 1;
        }
        None
    }

    /// The first named child of `i`.
    pub fn first_named_child(&self, i: usize) -> (child: Option<usize>)
        requires
            i < self@.len(),
        ensures
            as_index(child) == first_named_child(self@, i as int),
    {
        let kids = self.children(i);
        let ghost c = children_of(self@, i as int);
        proof {
            lemma_children_of(self@, i as int);
        }
        let mut k: usize = 0;
        while k < kids.len()
            invariant
                i < self@.len(),
                kids@.len() == c.len(),
                forall|q: int| 0 <= q < kids@.len() ==> #[trigger] kids@[q] as int == c[q],
                forall|q: int| 0 <= q < c.len() ==> #[trigger] c[q] < self@.len(),
                k <= kids@.len(),
                first_named_child(self@, i as int) == first_named_in(self@, c, k as int),
            decreases kids@.len() - k,
        {
            let j = kids[k];
            assert(c[k as int] == j);
            if self.node(j).named {
                return Some(j);
            }
            k = k + 1;
        }
        None
    }

    /// Whether every node's span lies within a source of `len` bytes and its
    /// row leaves room for a one-based line number.
    pub fn fits_source(&self, len: usize) -> (fits: bool)
        ensures
            fits == fits_source(self@, len as int),
    {
        let n = self.len();
        let mut i: usize = 0;
        while i < n
            invariant
                n == self@.len(),
                i <= n,
                forall|q: int| 0 <= q < i ==> fits_span(#[trigger] self@[q], len as int),
            decreases n - i,
        {
            let node = self.node(i);
            if node.start > node.end || node.end > len || node.row == usize::MAX {
                assert(!fits_span(self@[i as int], len as int));
                return false;
            }
            i = i + 1;
        }
        true
    }

    /// The text of node `i` in `src`.
    pub fn text<'a>(&self, i: usize, src: &'a [u8]) -> (text: Option<&'a str>)
        requires
            i < self@.len(),
            fits_source(self@, src@.len() as int),
        ensures
            match text {
                Some(t) => node_text(self@, src@, i as int) == Some(t@),
                None => node_text(self@, src@, i as int) is None,
            },
    {
        let node = self.node(i);
        assert(fits_span(self@[i as int], src@.len() as int));
        decode(vstd::slice::slice_subrange(src, node.start, node.end))
    }
}

} // verus!
