use vstd::prelude::*;
use crate::FileState;
use crate::error::DatError;
use crate::paths::{chars_lt, path_parts, split_lower, str_cmp};

verus! {

/// Description of one stored file: where its payload begins, its
/// decompressed length, and its compression state.
#[derive(Debug, Default, Clone, Copy, PartialEq, Eq, Structural)]
pub struct FileEntry {
    pub offset: usize,
    pub size: usize,
    pub state: FileState,
}

/// What a tree node holds: a directory with ordered children, or a file.
#[derive(Debug)]
pub enum NodeType {
    Directory { children: Vec<Node> },
    File { entry: FileEntry },
}

/// One node of the path index: a single name segment, the full path from
/// the root, and the directory/file payload.
#[derive(Debug)]
pub struct Node {
    pub name: String,
    pub path: String,
    pub node_type: NodeType,
}

/// The mathematical shape of a node: its two strings as character
/// sequences, and either an entry or a sequence of child shapes.
#[verifier::ext_equal]
pub struct NodeV {
    pub name: Seq<char>,
    pub path: Seq<char>,
    pub kind: NodeKind,
}

#[verifier::ext_equal]
pub enum NodeKind {
    Dir { children: Seq<NodeV> },
    File { entry: FileEntry },
}

/// The shapes of a run of nodes.
pub open spec fn views_of(s: Seq<Node>) -> Seq<NodeV>
    decreases s,
{
    if s.len() == 0 {
        Seq::empty()
    } else {
        seq![s[0]@] + views_of(s.skip(1))
    }
}

impl View for Node {
    type V = NodeV;

    open spec fn view(&self) -> NodeV
        decreases self,
    {
        NodeV {
            name: self.name@,
            path: self.path@,
            kind: match self.node_type {
                NodeType::Directory { children } => NodeKind::Dir {
                    children: views_of(children@),
                },
                NodeType::File { entry } => NodeKind::File { entry },
            },
        }
    }
}

/// `views_of` is the pointwise view of the run.
pub proof fn lemma_views_of(s: Seq<Node>)
    ensures
        views_of(s).len() == s.len(),
        forall|i: int| 0 <= i < s.len() ==> #[trigger] views_of(s)[i] == s[i]@,
    decreases s,
{
    if s.len() > 0 {
        lemma_views_of(s.skip(1));
        assert(views_of(s) == seq![s[0]@] + views_of(s.skip(1)));
        assert(forall|i: int| 1 <= i < s.len() ==> #[trigger] s[i] == s.skip(1)[i - 1]);
        assert(forall|i: int| 0 <= i < s.len() ==> #[trigger] views_of(s)[i] == s[i]@) by {
            assert(forall|i: int|
                1 <= i < s.len() ==> #[trigger] views_of(s)[i] == views_of(s.skip(1))[i - 1]);
        }
    }
}

impl NodeV {
    /// The children of a directory shape; empty for a file shape.
    pub open spec fn children(self) -> Seq<NodeV> {
        match self.kind {
            NodeKind::Dir { children } => children,
            NodeKind::File { .. } => Seq::empty(),
        }
    }

    /// The entry of a file shape.
    pub open spec fn entry(self) -> Option<FileEntry> {
        match self.kind {
            NodeKind::Dir { .. } => None,
            NodeKind::File { entry } => Some(entry),
        }
    }

    pub open spec fn is_dir(self) -> bool {
        self.kind is Dir
    }

    pub open spec fn is_file(self) -> bool {
        self.kind is File
    }

    /// Number of file nodes in the subtree rooted here.
    pub open spec fn file_count(self) -> nat
        decreases self,
    {
        match self.kind {
            NodeKind::File { .. } => 1,
            NodeKind::Dir { children } => file_count_seq(children),
        }
    }

    /// Well-formed: within every directory, child names are unique.
    pub open spec fn wf(self) -> bool
        decreases self,
    {
        match self.kind {
            NodeKind::File { .. } => true,
            NodeKind::Dir { children } => names_unique(children) && seq_wf(children),
        }
    }

    /// Every directory's children are ordered by name.
    pub open spec fn sorted(self) -> bool
        decreases self,
    {
        match self.kind {
            NodeKind::File { .. } => true,
            NodeKind::Dir { children } => names_sorted(children) && seq_sorted(children),
        }
    }

    /// The first child with the given name.
    pub open spec fn child(self, name: Seq<char>) -> Option<NodeV> {
        let i = find_idx(self.children(), name);
        if i >= 0 {
            Some(self.children()[i])
        } else {
            None
        }
    }

    /// Walks the remaining path segments from this node.
    pub open spec fn get_at(self, parts: Seq<Seq<char>>) -> Option<NodeV>
        decreases parts.len(),
    {
        if parts.len() == 0 {
            Some(self)
        } else {
            match self.child(parts[0]) {
                Some(c) => c.get_at(parts.skip(1)),
                None => None,
            }
        }
    }

    /// The shape with every directory's children ordered by name,
    /// bottom-up; nothing else changes.
    pub open spec fn sort_rec(self) -> NodeV
        decreases self,
    {
        match self.kind {
            NodeKind::File { .. } => self,
            NodeKind::Dir { children } => NodeV {
                name: self.name,
                path: self.path,
                kind: NodeKind::Dir { children: sort_nodes(sort_rec_seq(children)) },
            },
        }
    }
}

pub open spec fn file_count_seq(s: Seq<NodeV>) -> nat
    decreases s,
{
    if s.len() == 0 {
        0
    } else {
        s[0].file_count() + file_count_seq(s.skip(1))
    }
}

/// No two nodes in the run share a name.
pub open spec fn names_unique(s: Seq<NodeV>) -> bool {
    forall|i: int, j: int| 0 <= i < j < s.len() ==> s[i].name != s[j].name
}

/// The run is ordered by name (duplicates may sit side by side).
pub open spec fn names_sorted(s: Seq<NodeV>) -> bool {
    forall|i: int, j: int|
        0 <= i < j < s.len() ==> s[i].name == s[j].name || chars_lt(s[i].name, s[j].name)
}

/// Every node of the run is well formed.
pub open spec fn seq_wf(s: Seq<NodeV>) -> bool
    decreases s,
{
    if s.len() == 0 {
        true
    } else {
        s[0].wf() && seq_wf(s.skip(1))
    }
}

/// Every node of the run is recursively sorted.
pub open spec fn seq_sorted(s: Seq<NodeV>) -> bool
    decreases s,
{
    if s.len() == 0 {
        true
    } else {
        s[0].sorted() && seq_sorted(s.skip(1))
    }
}

/// Pointwise reading of `seq_wf` and `seq_sorted`.
pub proof fn lemma_seq_wf(s: Seq<NodeV>)
    ensures
        seq_wf(s) <==> (forall|i: int| 0 <= i < s.len() ==> #[trigger] s[i].wf()),
        seq_sorted(s) <==> (forall|i: int| 0 <= i < s.len() ==> #[trigger] s[i].sorted()),
    decreases s,
{
    if s.len() > 0 {
        lemma_seq_wf(s.skip(1));
        assert(forall|i: int| 1 <= i < s.len() ==> #[trigger] s[i] == s.skip(1)[i - 1]);
        if s[0].wf() && seq_wf(s.skip(1)) {
            assert(forall|i: int| 0 <= i < s.len() ==> #[trigger] s[i].wf()) by {
                assert(forall|i: int|
                    1 <= i < s.len() ==> s.skip(1)[i - 1].wf() ==> #[trigger] s[i].wf());
            }
        }
        if s[0].sorted() && seq_sorted(s.skip(1)) {
            assert(forall|i: int| 0 <= i < s.len() ==> #[trigger] s[i].sorted()) by {
                assert(forall|i: int|
                    1 <= i < s.len() ==> s.skip(1)[i - 1].sorted() ==> #[trigger] s[i].sorted());
            }
        }
        if forall|i: int| 0 <= i < s.len() ==> #[trigger] s[i].wf() {
            assert(forall|i: int|
                0 <= i < s.skip(1).len() ==> #[trigger] s.skip(1)[i].wf()) by {
                assert(forall|i: int|
                    0 <= i < s.skip(1).len() ==> s.skip(1)[i] == s[i + 1]);
            }
        }
        if forall|i: int| 0 <= i < s.len() ==> #[trigger] s[i].sorted() {
            assert(forall|i: int|
                0 <= i < s.skip(1).len() ==> #[trigger] s.skip(1)[i].sorted()) by {
                assert(forall|i: int|
                    0 <= i < s.skip(1).len() ==> s.skip(1)[i] == s[i + 1]);
            }
        }
    }
}

/// Index of the first node with the given name, or `-1`.
pub open spec fn find_idx(s: Seq<NodeV>, name: Seq<char>) -> int
    decreases s.len(),
{
    if s.len() == 0 {
        -1
    } else if s[0].name == name {
        0
    } else {
        let r = find_idx(s.skip(1), name);
        if r == -1 {
            -1
        } else {
            1 + r
        }
    }
}

/// What `find_idx` promises: the first matching index, or none at all.
pub proof fn lemma_find_idx(s: Seq<NodeV>, name: Seq<char>)
    ensures
        find_idx(s, name) >= -1,
        find_idx(s, name) == -1 ==> forall|i: int| 0 <= i < s.len() ==> s[i].name != name,
        find_idx(s, name) >= 0 ==> find_idx(s, name) < s.len() && s[find_idx(s, name)].name == name
            && (forall|i: int| 0 <= i < find_idx(s, name) ==> s[i].name != name),
    decreases s.len(),
{
    if s.len() > 0 && s[0].name != name {
        let r = find_idx(s.skip(1), name);
        assert(find_idx(s, name) == if r == -1 {
            -1int
        } else {
            1 + r
        });
        lemma_find_idx(s.skip(1), name);
        assert(forall|i: int| 1 <= i < s.len() ==> #[trigger] s[i] == s.skip(1)[i - 1]);
        if r == -1 {
            assert(forall|i: int| 0 <= i < s.len() ==> s[i].name != name) by {
                assert(forall|i: int|
                    1 <= i < s.len() ==> #[trigger] s[i].name == s.skip(1)[i - 1].name);
            }
        } else {
            assert(s[find_idx(s, name)] == s.skip(1)[r]);
            assert(forall|i: int| 0 <= i < find_idx(s, name) ==> s[i].name != name) by {
                assert(forall|i: int|
                    1 <= i < s.len() ==> #[trigger] s[i].name == s.skip(1)[i - 1].name);
            }
        }
    }
}

/// Where a node lands in an ordered run: after every node whose name does
/// not come after its own, so the insertion is stable.
pub open spec fn insert_sorted(x: NodeV, s: Seq<NodeV>) -> Seq<NodeV>
    decreases s.len(),
{
    if s.len() == 0 {
        seq![x]
    } else if chars_lt(x.name, s[0].name) {
        seq![x] + s
    } else {
        seq![s[0]] + insert_sorted(x, s.skip(1))
    }
}

/// Stable insertion sort of a run of nodes, by name.
pub open spec fn sort_nodes(s: Seq<NodeV>) -> Seq<NodeV>
    decreases s.len(),
{
    if s.len() == 0 {
        Seq::empty()
    } else {
        insert_sorted(s.last(), sort_nodes(s.drop_last()))
    }
}

/// Sorts each node of a run recursively, keeping the run's order.
pub open spec fn sort_rec_seq(s: Seq<NodeV>) -> Seq<NodeV>
    decreases s,
{
    if s.len() == 0 {
        Seq::empty()
    } else {
        seq![s[0].sort_rec()] + sort_rec_seq(s.skip(1))
    }
}


/// A child of a well-formed, sorted directory is well formed and sorted.
pub proof fn lemma_child_wf(v: NodeV, name: Seq<char>)
    ensures
        v.wf() ==> (v.child(name) matches Some(c) ==> c.wf()),
        v.sorted() ==> (v.child(name) matches Some(c) ==> c.sorted()),
{
    lemma_find_idx(v.children(), name);
    let fi = find_idx(v.children(), name);
    lemma_seq_wf(v.children());
    if fi >= 0 && v.kind is Dir {
        if v.wf() {
            assert(v.children()[fi].wf());
        }
        if v.sorted() {
            assert(v.children()[fi].sorted());
        }
    }
}

impl Node {
    /// A new file node.
    pub fn new_file(name: &str, path: &str, entry: FileEntry) -> (r: Node)
        ensures
            r@ == (NodeV { name: name@, path: path@, kind: NodeKind::File { entry } }),
    {
        Node { name: name.to_owned(), path: path.to_owned(), node_type: NodeType::File { entry } }
    }

    /// A new directory node whose children are sorted by name.
    pub fn new_dir(name: &str, path: &str, children: Vec<Node>) -> (r: Node)
        ensures
            r@ == (NodeV {
                name: name@,
                path: path@,
                kind: NodeKind::Dir { children: sort_nodes(views_of(children@)) },
            }),
    {
        let mut children = children;
        sort_children_vec(&mut children);
        Node {
            name: name.to_owned(),
            path: path.to_owned(),
            node_type: NodeType::Directory { children },
        }
    }

    /// A new directory node whose children keep their given order.
    pub fn new_dir_unsorted(name: &str, path: &str, children: Vec<Node>) -> (r: Node)
        ensures
            r@ == (NodeV {
                name: name@,
                path: path@,
                kind: NodeKind::Dir { children: views_of(children@) },
            }),
    {
        Node {
            name: name.to_owned(),
            path: path.to_owned(),
            node_type: NodeType::Directory { children },
        }
    }

    /// The node's own name segment.
    pub fn get_name(&self) -> (r: &str)
        ensures
            r@ == self@.name,
    {
        self.name.as_str()
    }

    /// The node's full path from the root.
    pub fn get_path(&self) -> (r: &str)
        ensures
            r@ == self@.path,
    {
        self.path.as_str()
    }

    /// The entry of a file node, or nothing for a directory.
    pub fn get_file_entry(&self) -> (r: Option<&FileEntry>)
        ensures
            r matches Some(e) ==> self@.entry() == Some(*e),
            r is None ==> self@.entry() is None,
    {
        match &self.node_type {
            NodeType::File { entry } => Some(entry),
            NodeType::Directory { .. } => None,
        }
    }

    /// The children of a directory node, or nothing for a file.
    pub fn get_dir_children(&self) -> (r: Option<&Vec<Node>>)
        ensures
            r matches Some(c) ==> self@.is_dir() && views_of(c@) == self@.children(),
            r is None ==> self@.is_file(),
    {
        match &self.node_type {
            NodeType::Directory { children } => Some(children),
            NodeType::File { .. } => None,
        }
    }

    pub fn is_file(&self) -> (r: bool)
        ensures
            r == self@.is_file(),
    {
        match &self.node_type {
            NodeType::File { .. } => true,
            NodeType::Directory { .. } => false,
        }
    }

    pub fn is_dir(&self) -> (r: bool)
        ensures
            r == self@.is_dir(),
    {
        match &self.node_type {
            NodeType::Directory { .. } => true,
            NodeType::File { .. } => false,
        }
    }

    /// Finds a child by scanning in order; valid on any directory.
    #[verifier::loop_isolation(false)]
    pub fn find_child_linear(&self, name: &str) -> (r: Option<&Node>)
        ensures
            (match self@.child(name@) {
                Some(cv) => r matches Some(c) && c@ == cv,
                None => r is None,
            }),
    {
        proof {
            lemma_find_idx(self@.children(), name@);
        }
        match &self.node_type {
            NodeType::File { .. } => None,
            NodeType::Directory { children } => {
                proof {
                    lemma_views_of(children@);
                    assert(self@.children() == views_of(children@));
                }
                let n = children.len();
                let mut j: usize = 0;
                while j < n
                    invariant
                        j <= n == children@.len(),
                        views_of(children@) == self@.children(),
                        forall|k: int| 0 <= k < j ==> self@.children()[k].name != name@,
                    decreases n - j,
                {
                    proof {
                        lemma_views_of(children@);
                    }
                    if str_cmp(children[j].name.as_str(), name) == 0 {
                        proof {
                            assert(children@[j as int]@.name == children@[j as int].name@);
                            assert(self@.children()[j as int].name == name@);
                        }
                        return Some(&children[j]);
                    }
                    j = j + 1;
                }
                None
            },
        }
    }

    /// Finds a child by binary search; the result is pinned down when the
    /// children are sorted and their names unique, which holds for every
    /// tree built by parsing or by sorted insertion.
    #[verifier::loop_isolation(false)]
    pub fn find_child(&self, name: &str) -> (r: Option<&Node>)
        ensures
            names_sorted(self@.children()) && names_unique(self@.children()) ==> (
            match self@.child(name@) {
                Some(cv) => r matches Some(c) && c@ == cv,
                None => r is None,
            }),
            r matches Some(c) ==> c@.name == name@ && self@.children().contains(c@),
    {
        proof {
            lemma_find_idx(self@.children(), name@);
        }
        match &self.node_type {
            NodeType::File { .. } => None,
            NodeType::Directory { children } => {
                proof {
                    lemma_views_of(children@);
                    assert(self@.children() == views_of(children@));
                }
                let ghost vs = self@.children();
                let mut lo: usize = 0;
                let mut hi: usize = children.len();
                while lo < hi
                    invariant
                        lo <= hi <= children@.len(),
                        views_of(children@) == vs,
                        vs.len() == children@.len(),
                        names_sorted(vs) && names_unique(vs) ==> (forall|k: int|
                            0 <= k < lo ==> chars_lt(vs[k].name, name@)) && (forall|k: int|
                            hi <= k < vs.len() ==> chars_lt(name@, vs[k].name)),
                    decreases hi - lo,
                {
                    proof {
                        lemma_views_of(children@);
                    }
                    let mid = lo + (hi - lo) / 2;
                    let c = str_cmp(children[mid].name.as_str(), name);
                    if c == 0 {
                        proof {
                            if names_sorted(vs) && names_unique(vs) {
                                lemma_find_idx(vs, name@);
                                let fi = find_idx(vs, name@);
                                assert(fi >= 0);
                                if fi != mid {
                                    assert(vs[fi].name == vs[mid as int].name);
                                    assert(false);
                                }
                            }
                        }
                        return Some(&children[mid]);
                    } else if c == -1 {
                        proof {
                            if names_sorted(vs) && names_unique(vs) {
                                assert forall|k: int| 0 <= k < mid + 1 implies chars_lt(
                                    vs[k].name,
                                    name@,
                                ) by {
                                    if k < mid {
                                        crate::paths::lemma_chars_lt_trans(
                                            vs[k].name,
                                            vs[mid as int].name,
                                            name@,
                                        );
                                    }
                                }
                            }
                        }
                        lo = mid + 1;
                    } else {
                        proof {
                            if names_sorted(vs) && names_unique(vs) {
                                assert forall|k: int| mid <= k < vs.len() implies chars_lt(
                                    name@,
                                    vs[k].name,
                                ) by {
                                    assert(vs[mid as int] == children@[mid as int]@);
                                    assert(chars_lt(name@, vs[mid as int].name));
                                    if k > mid {
                                        crate::paths::lemma_chars_lt_trans(
                                            name@,
                                            vs[mid as int].name,
                                            vs[k].name,
                                        );
                                    }
                                }
                            }
                        }
                        hi = mid;
                    }
                }
                proof {
                    if names_sorted(vs) && names_unique(vs) {
                        lemma_find_idx(vs, name@);
                        let fi = find_idx(vs, name@);
                        if fi >= 0 {
                            crate::paths::lemma_chars_order(vs[fi].name, name@);
                            assert(false);
                        }
                    }
                }
                None
            },
        }
    }

    /// Adds a child to a directory node, keeping the level sorted by
    /// name; fails on a file node.
    pub fn add_child(&mut self, node: Node) -> (r: Result<(), DatError>)
        ensures
            old(self)@.is_file() ==> r == Err::<(), DatError>(DatError::TreeNodeError) && final(self)@
                == old(self)@,
            old(self)@.is_dir() ==> r is Ok && final(self)@ == (NodeV {
                name: old(self)@.name,
                path: old(self)@.path,
                kind: NodeKind::Dir {
                    children: sort_nodes(old(self)@.children().push(node@)),
                },
            }),
    {
        let ghost nv = node@;
        match &mut self.node_type {
            NodeType::File { .. } => Err(DatError::TreeNodeError),
            NodeType::Directory { children } => {
                let ghost cs0 = children@;
                children.push(node);
                proof {
                    lemma_views_of(cs0);
                    lemma_views_of(children@);
                    assert forall|k: int| 0 <= k < children@.len() implies views_of(children@)[k]
                        == views_of(cs0).push(nv)[k] by {
                        assert(views_of(children@)[k] == children@[k]@);
                        if k < cs0.len() {
                            assert(children@[k] == cs0[k]);
                            assert(views_of(cs0)[k] == cs0[k]@);
                        }
                    }
                    assert(views_of(children@) =~= views_of(cs0).push(nv));
                }
                sort_children_vec(children);
                Ok(())
            },
        }
    }

    /// Adds a child to a directory node at the end of its run, leaving
    /// the level unsorted; fails on a file node.
    pub fn add_child_unsorted(&mut self, node: Node) -> (r: Result<(), DatError>)
        ensures
            old(self)@.is_file() ==> r == Err::<(), DatError>(DatError::TreeNodeError) && final(self)@
                == old(self)@,
            old(self)@.is_dir() ==> r is Ok && final(self)@ == (NodeV {
                name: old(self)@.name,
                path: old(self)@.path,
                kind: NodeKind::Dir { children: old(self)@.children().push(node@) },
            }),
    {
        let ghost nv = node@;
        match &mut self.node_type {
            NodeType::File { .. } => Err(DatError::TreeNodeError),
            NodeType::Directory { children } => {
                let ghost cs0 = children@;
                children.push(node);
                proof {
                    lemma_views_of(cs0);
                    lemma_views_of(children@);
                    assert forall|k: int| 0 <= k < children@.len() implies views_of(children@)[k]
                        == views_of(cs0).push(nv)[k] by {
                        assert(views_of(children@)[k] == children@[k]@);
                        if k < cs0.len() {
                            assert(children@[k] == cs0[k]);
                            assert(views_of(cs0)[k] == cs0[k]@);
                        }
                    }
                    assert(views_of(children@) =~= views_of(cs0).push(nv));
                }
                Ok(())
            },
        }
    }

    /// Adds a run of children to a directory node, then sorts the level
    /// once; fails on a file node.
    pub fn add_children(&mut self, nodes: Vec<Node>) -> (r: Result<(), DatError>)
        ensures
            old(self)@.is_file() ==> r == Err::<(), DatError>(DatError::TreeNodeError) && final(self)@
                == old(self)@,
            old(self)@.is_dir() ==> r is Ok && final(self)@ == (NodeV {
                name: old(self)@.name,
                path: old(self)@.path,
                kind: NodeKind::Dir {
                    children: sort_nodes(old(self)@.children() + views_of(nodes@)),
                },
            }),
    {
        let ghost nv = views_of(nodes@);
        let mut nodes = nodes;
        match &mut self.node_type {
            NodeType::File { .. } => Err(DatError::TreeNodeError),
            NodeType::Directory { children } => {
                let ghost cs0 = children@;
                let ghost ns0 = nodes@;
                children.append(&mut nodes);
                proof {
                    lemma_views_of(cs0);
                    lemma_views_of(ns0);
                    lemma_views_of(children@);
                    assert forall|k: int| 0 <= k < children@.len() implies views_of(children@)[k]
                        == (views_of(cs0) + nv)[k] by {
                        assert(views_of(children@)[k] == children@[k]@);
                        if k < cs0.len() {
                            assert(children@[k] == cs0[k]);
                            assert(views_of(cs0)[k] == cs0[k]@);
                        } else {
                            assert(children@[k] == ns0[k - cs0.len()]);
                            assert(views_of(ns0)[k - cs0.len()] == ns0[k - cs0.len()]@);
                        }
                    }
                    assert(views_of(children@) =~= views_of(cs0) + nv);
                }
                sort_children_vec(children);
                Ok(())
            },
        }
    }
}

/// Sorts a run of nodes by name, stably, in place.
fn sort_children_vec(children: &mut Vec<Node>)
    ensures
        views_of(final(children)@) == sort_nodes(views_of(old(children)@)),
{
    let ghost orig = children@;
    let ghost origv = views_of(children@);
    let mut out: Vec<Node> = Vec::new();
    proof {
        lemma_views_of(orig);
        assert(origv.skip(0) =~= origv);
        assert(origv.take(0) =~= Seq::<NodeV>::empty());
        assert(views_of(out@) =~= Seq::<NodeV>::empty());
        assert(sort_nodes(origv.take(0)) == Seq::<NodeV>::empty());
    }
    let n = children.len();
    let mut k: usize = 0;
    while k < n
        invariant
            k <= n == orig.len() == origv.len(),
            children@.len() == n - k,
            views_of(children@) == origv.skip(k as int),
            views_of(out@) == sort_nodes(origv.take(k as int)),
        decreases n - k,
    {
        let ghost cs_pre = children@;
        let x = children.remove(0);
        proof {
            cs_pre.remove_ensures(0);
            lemma_views_of(cs_pre);
            lemma_views_of(children@);
            assert(x@ == origv.skip(k as int)[0]);
            assert(x@ == origv[k as int]);
            assert forall|j: int| 0 <= j < children@.len() implies views_of(children@)[j]
                == origv.skip(k + 1)[j] by {
                assert(children@[j] == cs_pre[j + 1]);
                assert(views_of(children@)[j] == children@[j]@);
                assert(views_of(cs_pre)[j + 1] == cs_pre[j + 1]@);
                assert(views_of(cs_pre) == origv.skip(k as int));
            }
            assert(views_of(children@) =~= origv.skip(k + 1));
        }
        insert_child_sorted(&mut out, x);
        proof {
            assert(origv.take(k + 1).last() == origv[k as int]);
            assert(origv.take(k + 1).drop_last() =~= origv.take(k as int));
            assert(sort_nodes(origv.take(k + 1)) == insert_sorted(
                origv[k as int],
                sort_nodes(origv.take(k as int)),
            ));
        }
        k = k + 1;
    }
    core::mem::swap(children, &mut out);
    proof {
        assert(origv.take(n as int) =~= origv);
    }
}

/// Inserts one node into an ordered run, after any node whose name does
/// not come after its own.
fn insert_child_sorted(children: &mut Vec<Node>, x: Node)
    ensures
        views_of(final(children)@) == insert_sorted(x@, views_of(old(children)@)),
{
    let ghost xv = x@;
    let ghost vs = views_of(children@);
    proof {
        lemma_views_of(children@);
        assert(vs.skip(0) =~= vs);
        assert(vs.take(0) =~= Seq::<NodeV>::empty());
    }
    let n = children.len();
    let mut p: usize = 0;
    while p < n && str_cmp(x.name.as_str(), children[p].name.as_str()) != -1
        invariant
            p <= n == children@.len(),
            views_of(children@) == vs,
            vs.len() == n,
            x@ == xv,
            insert_sorted(xv, vs) == vs.take(p as int) + insert_sorted(xv, vs.skip(p as int)),
        decreases n - p,
    {
        proof {
            lemma_views_of(children@);
            assert(vs.skip(p as int)[0] == vs[p as int]);
            assert(vs.skip(p as int).skip(1) =~= vs.skip(p + 1));
            assert(insert_sorted(xv, vs.skip(p as int)) == seq![vs[p as int]] + insert_sorted(
                xv,
                vs.skip(p + 1),
            ));
            assert(vs.take(p as int) + (seq![vs[p as int]] + insert_sorted(xv, vs.skip(p + 1)))
                =~= vs.take(p + 1) + insert_sorted(xv, vs.skip(p + 1)));
        }
        p = p + 1;
    }
    proof {
        if p < n {
            assert(vs.skip(p as int)[0] == vs[p as int]);
            assert(insert_sorted(xv, vs.skip(p as int)) == seq![xv] + vs.skip(p as int));
        } else {
            assert(vs.skip(p as int) =~= Seq::<NodeV>::empty());
            assert(insert_sorted(xv, vs.skip(p as int)) == seq![xv]);
            assert(seq![xv] =~= seq![xv] + vs.skip(p as int));
        }
        assert(insert_sorted(xv, vs) == vs.take(p as int) + (seq![xv] + vs.skip(p as int)));
    }
    let ghost cs0 = children@;
    children.insert(p, x);
    proof {
        cs0.insert_ensures(p as int, x);
        lemma_views_of(cs0);
        lemma_views_of(children@);
        assert(views_of(children@) =~= vs.take(p as int) + (seq![xv] + vs.skip(p as int)));
    }
}


/// Pointwise reading of `sort_rec_seq`.
pub proof fn lemma_sort_rec_seq(s: Seq<NodeV>)
    ensures
        sort_rec_seq(s).len() == s.len(),
        forall|i: int| 0 <= i < s.len() ==> #[trigger] sort_rec_seq(s)[i] == s[i].sort_rec(),
    decreases s,
{
    if s.len() > 0 {
        lemma_sort_rec_seq(s.skip(1));
        assert(forall|i: int| 1 <= i < s.len() ==> #[trigger] s[i] == s.skip(1)[i - 1]);
        assert(forall|i: int|
            0 <= i < s.len() ==> #[trigger] sort_rec_seq(s)[i] == s[i].sort_rec()) by {
            assert(forall|i: int|
                1 <= i < s.len() ==> #[trigger] sort_rec_seq(s)[i] == sort_rec_seq(s.skip(1))[i
                    - 1]);
        }
    }
}

/// Sorts a whole subtree: every directory's children end up ordered by
/// name, children first, then this level.
#[verifier::loop_isolation(false)]
fn sort_node(node: Node) -> (r: Node)
    ensures
        r@ == node@.sort_rec(),
    decreases node,
{
    let ghost n0 = node;
    match node.node_type {
        NodeType::File { entry } => {
            let r = Node { name: node.name, path: node.path, node_type: NodeType::File { entry } };
            proof {
                assert(r@ =~= n0@.sort_rec());
            }
            r
        },
        NodeType::Directory { mut children } => {
            let ghost orig = children@;
            let ghost origv = views_of(orig);
            proof {
                lemma_views_of(orig);
            }
            let n = children.len();
            let mut i: usize = 0;
            while i < n
                invariant
                    i <= n == orig.len() == children@.len(),
                    origv.len() == n,
                    forall|k: int| i <= k < n ==> #[trigger] children@[k] == orig[k],
                    forall|k: int| 0 <= k < i ==> #[trigger] children@[k]@ == origv[k].sort_rec(),
                decreases n - i,
            {
                let ghost cs_pre = children@;
                let x = children.remove(i);
                proof {
                    cs_pre.remove_ensures(i as int);
                    assert(x == orig[i as int]);
                    lemma_views_of(orig);
                    assert(x@ == origv[i as int]);
                }
                proof {
                    assert(x == n0.node_type->Directory_children@[i as int]);
                }
                let x2 = sort_node(x);
                let ghost cs_mid = children@;
                children.insert(i, x2);
                proof {
                    cs_mid.insert_ensures(i as int, x2);
                    assert(forall|k: int|
                        0 <= k < i ==> #[trigger] children@[k] == cs_mid[k] && cs_mid[k]
                            == cs_pre[k]);
                    assert(forall|k: int|
                        i + 1 <= k < n ==> #[trigger] children@[k] == cs_mid[k - 1]
                            && cs_mid[k - 1] == cs_pre[k]);
                    assert(forall|k: int|
                        i + 1 <= k < n ==> #[trigger] children@[k] == cs_pre[k]);
                }
                i = i + 1;
            }
            proof {
                lemma_views_of(children@);
                lemma_sort_rec_seq(origv);
                assert(views_of(children@) =~= sort_rec_seq(origv));
            }
            sort_children_vec(&mut children);
            let r = Node {
                name: node.name,
                path: node.path,
                node_type: NodeType::Directory { children },
            };
            proof {
                assert(r@ =~= n0@.sort_rec());
            }
            r
        },
    }
}

/// A path built from a parent prefix and one more segment.
pub open spec fn child_path(prefix: Seq<char>, name: Seq<char>) -> Seq<char> {
    prefix + seq!['/'] + name
}

/// The chain of nodes that holds the path segments `parts[j..]`: every
/// inner segment becomes a directory, the last one the file itself.
pub open spec fn new_branch(parts: Seq<Seq<char>>, j: int, prefix: Seq<char>, entry: FileEntry) -> NodeV
    decreases parts.len() - j,
{
    let name = parts[j];
    let path = child_path(prefix, name);
    if j >= parts.len() - 1 {
        NodeV { name, path, kind: NodeKind::File { entry } }
    } else {
        NodeV { name, path, kind: NodeKind::Dir { children: seq![new_branch(parts, j + 1, path, entry)] } }
    }
}

/// What inserting the segments `parts[j..]` under a node yields: the
/// walk follows existing children by name, missing nodes are created,
/// and reaching a file node with segments left over is an error. When
/// `keep_sorted` is set, a level that gains a node is re-sorted.
pub open spec fn spec_insert_at(
    v: NodeV,
    parts: Seq<Seq<char>>,
    j: int,
    prefix: Seq<char>,
    entry: FileEntry,
    keep_sorted: bool,
) -> Result<NodeV, DatError>
    decreases parts.len() - j,
{
    if j >= parts.len() {
        Ok(v)
    } else {
        match v.kind {
            NodeKind::File { .. } => Err(DatError::TreeNodeError),
            NodeKind::Dir { children } => {
                let name = parts[j];
                let idx = find_idx(children, name);
                if idx >= 0 {
                    match spec_insert_at(
                        children[idx],
                        parts,
                        j + 1,
                        child_path(prefix, name),
                        entry,
                        keep_sorted,
                    ) {
                        Ok(c2) => Ok(
                            NodeV {
                                name: v.name,
                                path: v.path,
                                kind: NodeKind::Dir { children: children.update(idx, c2) },
                            },
                        ),
                        Err(e) => Err(e),
                    }
                } else {
                    let cs = children.push(new_branch(parts, j, prefix, entry));
                    Ok(
                        NodeV {
                            name: v.name,
                            path: v.path,
                            kind: NodeKind::Dir {
                                children: if keep_sorted {
                                    sort_nodes(cs)
                                } else {
                                    cs
                                },
                            },
                        },
                    )
                }
            },
        }
    }
}

/// Builds the node chain for the remaining segments.
fn make_branch(parts: &Vec<String>, j: usize, prefix: &String, entry: FileEntry) -> (r: Node)
    requires
        j < parts@.len(),
    ensures
        r@ == new_branch(parts@.map_values(|p: String| p@), j as int, prefix@, entry),
    decreases parts@.len() - j,
{
    let mut path = prefix.clone();
    crate::paths::push_char(&mut path, '/');
    path.append(parts[j].as_str());
    proof {
        assert(path@ =~= child_path(prefix@, parts@.map_values(|p: String| p@)[j as int]));
    }
    if j >= parts.len() - 1 {
        let r = Node {
            name: parts[j].clone(),
            path,
            node_type: NodeType::File { entry },
        };
        proof {
            assert(r@ =~= new_branch(parts@.map_values(|p: String| p@), j as int, prefix@, entry));
        }
        r
    } else {
        let child = make_branch(parts, j + 1, &path, entry);
        let mut children: Vec<Node> = Vec::new();
        children.push(child);
        let r = Node {
            name: parts[j].clone(),
            path,
            node_type: NodeType::Directory { children },
        };
        proof {
            lemma_views_of(r.node_type->Directory_children@);
            assert(views_of(r.node_type->Directory_children@) =~= seq![
                new_branch(
                    parts@.map_values(|p: String| p@),
                    j + 1,
                    child_path(prefix@, parts@.map_values(|p: String| p@)[j as int]),
                    entry,
                ),
            ]);
            assert(r@ =~= new_branch(parts@.map_values(|p: String| p@), j as int, prefix@, entry));
        }
        r
    }
}

/// Inserts the segments `parts[j..]` under `node`. With `keep_sorted`
/// the walk uses binary search and re-sorts grown levels, so its result
/// is pinned down on well-formed sorted subtrees; without it the walk
/// scans linearly and appends, and the result is pinned down always.
#[verifier::loop_isolation(false)]
fn insert_at(
    node: &mut Node,
    parts: &Vec<String>,
    j: usize,
    prefix: &String,
    entry: FileEntry,
    keep_sorted: bool,
) -> (r: Result<(), DatError>)
    requires
        j <= parts@.len(),
    ensures
        (!keep_sorted || (old(node)@.wf() && old(node)@.sorted())) ==> (match spec_insert_at(
            old(node)@,
            parts@.map_values(|p: String| p@),
            j as int,
            prefix@,
            entry,
            keep_sorted,
        ) {
            Ok(v2) => r is Ok && final(node)@ == v2,
            Err(e) => r == Err::<(), DatError>(e),
        }),
    decreases parts@.len() - j,
{
    let ghost pviews = parts@.map_values(|p: String| p@);
    let ghost v0 = node@;
    if j >= parts.len() {
        return Ok(());
    }
    proof {
        lemma_find_idx(v0.children(), pviews[j as int]);
        lemma_child_wf(v0, pviews[j as int]);
        if v0.wf() {
            lemma_seq_wf(v0.children());
        }
    }
    let found = if keep_sorted {
        node.find_child(parts[j].as_str()).is_some()
    } else {
        node.find_child_linear(parts[j].as_str()).is_some()
    };
    match &mut node.node_type {
        NodeType::File { .. } => Err(DatError::TreeNodeError),
        NodeType::Directory { children } => {
            proof {
                lemma_views_of(children@);
                assert(views_of(children@) == v0.children());
            }
            if found {
                // walk into the existing child
                let ghost idx = find_idx(v0.children(), pviews[j as int]);
                let mut k: usize = 0;
                let n = children.len();
                #[verifier::loop_isolation(false)]
                while k < n
                    invariant
                        k <= n,
                        forall|t: int| 0 <= t < k ==> v0.children()[t].name != pviews[j as int],
                    decreases n - k,
                {
                    proof {
                        lemma_views_of(children@);
                    }
                    if str_cmp(children[k].name.as_str(), parts[j].as_str()) == 0 {
                        break;
                    }
                    proof {
                        assert(children@[k as int]@.name == children@[k as int].name@);
                    }
                    k = k + 1;
                }
                if k >= children.len() {
                    // the match found earlier is gone: cannot happen, but
                    // the walk must still end without panicking
                    proof {
                        if !keep_sorted || (v0.wf() && v0.sorted()) {
                            assert(idx >= 0);
                            assert(v0.children()[idx].name == pviews[j as int]);
                            assert(false);
                        }
                    }
                    return Err(DatError::TreeError);
                }
                proof {
                    lemma_views_of(children@);
                    assert(children@[k as int]@.name == children@[k as int].name@);
                    if !keep_sorted || (v0.wf() && v0.sorted()) {
                        assert(v0.children()[k as int].name == pviews[j as int]);
                        assert(idx == k);
                    }
                }
                let mut path = prefix.clone();
                crate::paths::push_char(&mut path, '/');
                path.append(parts[j].as_str());
                proof {
                    assert(path@ =~= child_path(prefix@, pviews[j as int]));
                }
                let ghost cs_pre = children@;
                let mut child = children.remove(k);
                let res = insert_at(&mut child, parts, j + 1, &path, entry, keep_sorted);
                let ghost cs_mid = children@;
                children.insert(k, child);
                proof {
                    cs_pre.remove_ensures(k as int);
                    cs_mid.insert_ensures(k as int, child);
                }
                match res {
                    Ok(()) => {
                        proof {
                            if !keep_sorted || (v0.wf() && v0.sorted()) {
                                lemma_views_of(cs_pre);
                                lemma_views_of(children@);
                                assert forall|t: int| 0 <= t < children@.len() implies views_of(
                                    children@,
                                )[t] == v0.children().update(idx, child@)[t] by {
                                    assert(views_of(children@)[t] == children@[t]@);
                                    if t < k {
                                        assert(children@[t] == cs_mid[t] && cs_mid[t] == cs_pre[t]);
                                        assert(views_of(cs_pre)[t] == cs_pre[t]@);
                                    } else if t > k {
                                        assert(children@[t] == cs_mid[t - 1]);
                                        assert(cs_mid[t - 1] == cs_pre[t]);
                                        assert(views_of(cs_pre)[t] == cs_pre[t]@);
                                    }
                                }
                                assert(views_of(children@) =~= v0.children().update(idx, child@));
                                assert(node@ =~= (NodeV {
                                    name: v0.name,
                                    path: v0.path,
                                    kind: NodeKind::Dir {
                                        children: v0.children().update(
                                            idx,
                                            spec_insert_at(
                                                v0.children()[idx],
                                                pviews,
                                                j + 1,
                                                child_path(prefix@, pviews[j as int]),
                                                entry,
                                                keep_sorted,
                                            )->Ok_0,
                                        ),
                                    },
                                }));
                            }
                        }
                        Ok(())
                    },
                    Err(e) => Err(e),
                }
            } else {
                // no child with this name: grow a fresh branch
                let ghost idx = find_idx(v0.children(), pviews[j as int]);
                proof {
                    if !keep_sorted || (v0.wf() && v0.sorted()) {
                        if idx >= 0 {
                            assert(false);
                        }
                    }
                }
                let b = make_branch(parts, j, prefix, entry);
                let ghost cs_pre = children@;
                children.push(b);
                proof {
                    lemma_views_of(cs_pre);
                    lemma_views_of(children@);
                    assert forall|t: int| 0 <= t < children@.len() implies views_of(children@)[t]
                        == v0.children().push(new_branch(pviews, j as int, prefix@, entry))[t] by {
                        assert(views_of(children@)[t] == children@[t]@);
                        if t < cs_pre.len() {
                            assert(children@[t] == cs_pre[t]);
                            assert(views_of(cs_pre)[t] == cs_pre[t]@);
                        }
                    }
                    assert(views_of(children@) =~= v0.children().push(
                        new_branch(pviews, j as int, prefix@, entry),
                    ));
                }
                if keep_sorted {
                    sort_children_vec(children);
                }
                proof {
                    if !keep_sorted || (v0.wf() && v0.sorted()) {
                        assert(node@ =~= spec_insert_at(
                            v0,
                            pviews,
                            j as int,
                            prefix@,
                            entry,
                            keep_sorted,
                        )->Ok_0);
                    }
                }
                Ok(())
            }
        },
    }
}


/// The path index of one archive: a root directory named `.`.
pub struct FileTree {
    pub root: Node,
}

impl View for FileTree {
    type V = NodeV;

    open spec fn view(&self) -> NodeV {
        self.root@
    }
}

/// The file rows of a subtree, in depth-first order: name, full path and
/// entry of every file node.
pub open spec fn files_of(v: NodeV) -> Seq<(Seq<char>, Seq<char>, FileEntry)>
    decreases v,
{
    match v.kind {
        NodeKind::File { entry } => seq![(v.name, v.path, entry)],
        NodeKind::Dir { children } => files_of_seq(children),
    }
}

pub open spec fn files_of_seq(s: Seq<NodeV>) -> Seq<(Seq<char>, Seq<char>, FileEntry)>
    decreases s,
{
    if s.len() == 0 {
        Seq::empty()
    } else {
        files_of(s[0]) + files_of_seq(s.skip(1))
    }
}

/// The rows already collected, as character sequences.
pub open spec fn row_views(s: Seq<(String, String, FileEntry)>) -> Seq<
    (Seq<char>, Seq<char>, FileEntry),
> {
    s.map_values(|t: (String, String, FileEntry)| (t.0@, t.1@, t.2))
}

/// Appends the file rows of a subtree to `out`, depth first.
#[verifier::loop_isolation(false)]
fn collect_files(node: &Node, out: &mut Vec<(String, String, FileEntry)>)
    ensures
        row_views(final(out)@) == row_views(old(out)@) + files_of(node@),
    decreases node,
{
    match &node.node_type {
        NodeType::File { entry } => {
            let row = (node.name.clone(), node.path.clone(), *entry);
            let ghost o0 = out@;
            out.push(row);
            proof {
                assert(row_views(out@) =~= row_views(o0) + files_of(node@));
            }
        },
        NodeType::Directory { children } => {
            let ghost o0 = out@;
            let ghost cs = children@;
            let ghost vs = views_of(children@);
            proof {
                lemma_views_of(cs);
                assert(vs.skip(0) =~= vs);
                assert(files_of(node@) == files_of_seq(vs));
            }
            let n = children.len();
            let mut i: usize = 0;
            proof {
                assert(row_views(out@) + files_of_seq(vs.skip(0)) =~= row_views(o0) + files_of_seq(
                    vs,
                ));
            }
            while i < n
                invariant
                    i <= n == cs.len(),
                    children@ == cs,
                    row_views(out@) + files_of_seq(vs.skip(i as int)) == row_views(o0)
                        + files_of_seq(vs),
                decreases n - i,
            {
                proof {
                    assert(decreases_to!(node => children@[i as int]));
                    assert(vs.skip(i as int)[0] == vs[i as int]);
                    assert(vs.skip(i as int).skip(1) =~= vs.skip(i + 1));
                    assert(vs[i as int] == children@[i as int]@);
                }
                let ghost o_pre = out@;
                collect_files(&children[i], out);
                proof {
                    assert(row_views(out@) + files_of_seq(vs.skip(i + 1)) =~= (row_views(o_pre)
                        + files_of(vs[i as int])) + files_of_seq(vs.skip(i + 1)));
                    assert((row_views(o_pre) + files_of(vs[i as int])) + files_of_seq(
                        vs.skip(i + 1),
                    ) =~= row_views(o_pre) + (files_of(vs[i as int]) + files_of_seq(
                        vs.skip(i + 1),
                    )));
                    assert(files_of(vs[i as int]) + files_of_seq(vs.skip(i + 1)) == files_of_seq(
                        vs.skip(i as int),
                    ));
                }
                i = i + 1;
            }
            proof {
                assert(vs.skip(n as int) =~= Seq::<NodeV>::empty());
                assert(files_of_seq(vs.skip(n as int)) =~= Seq::<
                    (Seq<char>, Seq<char>, FileEntry),
                >::empty());
                assert(row_views(out@) =~= row_views(o0) + files_of_seq(vs));
            }
        },
    }
}

/// Walks the file rows of a tree, in depth-first order.
pub struct FileTreeIterator {
    pub rows: Vec<(String, String, FileEntry)>,
    pub pos: usize,
}

impl FileTreeIterator {
    /// The next file row: its name, full path and entry.
    pub fn next(&mut self) -> (r: Option<(String, String, FileEntry)>)
        ensures
            old(self).pos < old(self).rows@.len() ==> (r matches Some(t) && final(self).pos == old(
                self,
            ).pos + 1 && final(self).rows@ == old(self).rows@ && (t.0@, t.1@, t.2) == row_views(
                old(self).rows@,
            )[old(self).pos as int]),
            old(self).pos >= old(self).rows@.len() ==> r is None && *final(self) == *old(self),
    {
        if self.pos < self.rows.len() {
            let row = (
                self.rows[self.pos].0.clone(),
                self.rows[self.pos].1.clone(),
                self.rows[self.pos].2,
            );
            self.pos = self.pos + 1;
            Some(row)
        } else {
            None
        }
    }
}

impl FileTree {
    /// An empty tree: a root directory named `.` with an empty path.
    pub fn new() -> (r: FileTree)
        ensures
            r@ == (NodeV {
                name: seq!['.'],
                path: Seq::<char>::empty(),
                kind: NodeKind::Dir { children: Seq::<NodeV>::empty() },
            }),
    {
        let r = FileTree { root: Node::new_dir(".", "", Vec::new()) };
        proof {
            reveal_strlit(".");
            reveal_strlit("");
            lemma_views_of(Seq::<Node>::empty());
            assert(r@ =~= (NodeV {
                name: seq!['.'],
                path: Seq::<char>::empty(),
                kind: NodeKind::Dir { children: Seq::<NodeV>::empty() },
            }));
        }
        r
    }

    /// A tree over the given nodes, sorted by name at the root level.
    pub fn create(nodes: Vec<Node>) -> (r: Result<FileTree, DatError>)
        ensures
            r matches Ok(t) && t@ == (NodeV {
                name: seq!['.'],
                path: Seq::<char>::empty(),
                kind: NodeKind::Dir { children: sort_nodes(views_of(nodes@)) },
            }),
    {
        let ghost nv = views_of(nodes@);
        let mut t = FileTree::new();
        let res = t.root.add_children(nodes);
        proof {
            assert(Seq::<NodeV>::empty() + nv =~= nv);
        }
        match res {
            Ok(()) => Ok(t),
            Err(_) => Err(DatError::TreeError),
        }
    }

    /// Sorts every directory of the tree by name, exactly once, after
    /// which binary-search lookup is valid.
    pub fn sort(&mut self) -> (r: Result<(), DatError>)
        ensures
            r is Ok,
            final(self)@ == old(self)@.sort_rec(),
    {
        let mut tmp = Node::new_dir_unsorted("", "", Vec::new());
        core::mem::swap(&mut self.root, &mut tmp);
        tmp = sort_node(tmp);
        core::mem::swap(&mut self.root, &mut tmp);
        Ok(())
    }

    /// Looks a node up by path. `.` and `./` name the root itself. The
    /// path is split on `/` or `\`, lowercased, and walked by binary
    /// search, which pins the result down on sorted well-formed trees.
    pub fn get<'a>(&'a self, path: &str) -> (r: Option<&'a Node>)
        ensures
            (path@ == "."@ || path@ == "./"@) ==> (r matches Some(n) && *n == self.root),
            !(path@ == "."@ || path@ == "./"@) && self@.wf() && self@.sorted() ==> (match self@.get_at(
                path_parts(path@),
            ) {
                Some(v) => r matches Some(n) && n@ == v,
                None => r is None,
            }),
    {
        if str_cmp(path, ".") == 0 || str_cmp(path, "./") == 0 {
            return Some(&self.root);
        }
        let parts = split_lower(path);
        let ghost pviews = parts@.map_values(|p: String| p@);
        let mut node: &Node = &self.root;
        let n = parts.len();
        let mut i: usize = 0;
        proof {
            assert(pviews.skip(0) =~= pviews);
        }
        #[verifier::loop_isolation(false)]
        while i < n
            invariant
                i <= n == pviews.len(),
                self@.wf() && self@.sorted() ==> node@.wf() && node@.sorted() && self@.get_at(
                    pviews,
                ) == node@.get_at(pviews.skip(i as int)),
            decreases n - i,
        {
            proof {
                lemma_child_wf(node@, pviews[i as int]);
                assert(pviews.skip(i as int)[0] == pviews[i as int]);
                assert(pviews.skip(i as int).skip(1) =~= pviews.skip(i + 1));
            }
            match node.find_child(parts[i].as_str()) {
                Some(c) => {
                    node = c;
                },
                None => {
                    return None;
                },
            }
            i = i + 1;
        }
        proof {
            assert(pviews.skip(n as int) =~= Seq::<Seq<char>>::empty());
        }
        Some(node)
    }

    /// Inserts an entry at a path, keeping every touched level sorted;
    /// missing directories are created on the way. Fails when the walk
    /// runs into a file node.
    pub fn insert(&mut self, path: &str, entry: FileEntry) -> (r: Result<(), DatError>)
        ensures
            old(self)@.wf() && old(self)@.sorted() ==> (match spec_insert_at(
                old(self)@,
                path_parts(path@),
                0,
                seq!['.'],
                entry,
                true,
            ) {
                Ok(v2) => r is Ok && final(self)@ == v2,
                Err(e) => r == Err::<(), DatError>(e),
            }),
    {
        let parts = split_lower(path);
        let mut prefix = String::new();
        crate::paths::push_char(&mut prefix, '.');
        insert_at(&mut self.root, &parts, 0, &prefix, entry, true)
    }

    /// Inserts an entry at a path without sorting: new nodes are
    /// appended, and lookups on the level scan linearly. Meant for bulk
    /// loading, with one `sort` call at the end.
    pub fn insert_unsorted(&mut self, path: &str, entry: FileEntry) -> (r: Result<(), DatError>)
        ensures
            (match spec_insert_at(old(self)@, path_parts(path@), 0, seq!['.'], entry, false) {
                Ok(v2) => r is Ok && final(self)@ == v2,
                Err(e) => r == Err::<(), DatError>(e),
            }),
    {
        let parts = split_lower(path);
        let mut prefix = String::new();
        crate::paths::push_char(&mut prefix, '.');
        insert_at(&mut self.root, &parts, 0, &prefix, entry, false)
    }

    /// All file rows of the tree, in depth-first order.
    pub fn file_nodes(&self) -> (r: FileTreeIterator)
        ensures
            row_views(r.rows@) == files_of(self@),
            r.pos == 0,
    {
        let mut rows: Vec<(String, String, FileEntry)> = Vec::new();
        proof {
            assert(row_views(rows@) =~= Seq::<(Seq<char>, Seq<char>, FileEntry)>::empty());
        }
        collect_files(&self.root, &mut rows);
        proof {
            assert(Seq::<(Seq<char>, Seq<char>, FileEntry)>::empty() + files_of(self@) =~= files_of(
                self@,
            ));
        }
        FileTreeIterator { rows, pos: 0 }
    }
}


/// Lookup is insensitive to `\` versus `/` as separator and to letter
/// case in the queried path: on any tree, two such paths resolve to the
/// same node.
pub proof fn lemma_get_insensitive(v: NodeV, a: Seq<char>, b: Seq<char>)
    requires
        crate::paths::path_equiv(a, b),
    ensures
        v.get_at(path_parts(a)) == v.get_at(path_parts(b)),
{
    crate::paths::lemma_lookup_insensitive(a, b);
}


/// The file count of a run splits at its last element.
proof fn lemma_file_count_last(s: Seq<NodeV>)
    requires
        s.len() > 0,
    ensures
        file_count_seq(s) == file_count_seq(s.drop_last()) + s.last().file_count(),
    decreases s,
{
    if s.len() == 1 {
        assert(s.drop_last() =~= Seq::<NodeV>::empty());
        assert(s.skip(1) =~= Seq::<NodeV>::empty());
    } else {
        lemma_file_count_last(s.skip(1));
        assert(s.skip(1).drop_last() =~= s.drop_last().skip(1));
        assert(s.drop_last()[0] == s[0]);
        assert(s.skip(1).last() == s.last());
        assert(file_count_seq(s.drop_last()) == s[0].file_count() + file_count_seq(
            s.drop_last().skip(1),
        ));
    }
}

/// Appending a node adds its file count.
proof fn lemma_file_count_push(s: Seq<NodeV>, x: NodeV)
    ensures
        file_count_seq(s.push(x)) == file_count_seq(s) + x.file_count(),
{
    assert(s.push(x).drop_last() =~= s);
    assert(s.push(x).last() == x);
    lemma_file_count_last(s.push(x));
}

/// Replacing a node swaps its file count for the new one's.
proof fn lemma_file_count_update(s: Seq<NodeV>, i: int, x: NodeV)
    requires
        0 <= i < s.len(),
    ensures
        file_count_seq(s.update(i, x)) == file_count_seq(s) - s[i].file_count() + x.file_count(),
    decreases s,
{
    if i == 0 {
        assert(s.update(0, x)[0] == x);
        assert(s.update(0, x).skip(1) =~= s.skip(1));
    } else {
        assert(s.update(i, x)[0] == s[0]);
        assert(s.update(i, x).skip(1) =~= s.skip(1).update(i - 1, x));
        lemma_file_count_update(s.skip(1), i - 1, x);
    }
}

/// Ordered insertion adds exactly the inserted node's file count.
proof fn lemma_file_count_insert_sorted(x: NodeV, s: Seq<NodeV>)
    ensures
        file_count_seq(insert_sorted(x, s)) == file_count_seq(s) + x.file_count(),
    decreases s.len(),
{
    if s.len() == 0 {
        assert(seq![x].skip(1) =~= Seq::<NodeV>::empty());
        assert(file_count_seq(Seq::<NodeV>::empty()) == 0);
        assert(file_count_seq(seq![x]) == x.file_count() + file_count_seq(seq![x].skip(1)));
    } else if chars_lt(x.name, s[0].name) {
        assert((seq![x] + s)[0] == x);
        assert((seq![x] + s).skip(1) =~= s);
        assert(file_count_seq(seq![x] + s) == x.file_count() + file_count_seq(
            (seq![x] + s).skip(1),
        ));
    } else {
        lemma_file_count_insert_sorted(x, s.skip(1));
        assert((seq![s[0]] + insert_sorted(x, s.skip(1)))[0] == s[0]);
        assert((seq![s[0]] + insert_sorted(x, s.skip(1))).skip(1) =~= insert_sorted(x, s.skip(1)));
        assert(file_count_seq(seq![s[0]] + insert_sorted(x, s.skip(1))) == s[0].file_count()
            + file_count_seq((seq![s[0]] + insert_sorted(x, s.skip(1))).skip(1)));
        assert(file_count_seq(s) == s[0].file_count() + file_count_seq(s.skip(1)));
    }
}

/// Sorting a run keeps its file count.
proof fn lemma_file_count_sort_nodes(s: Seq<NodeV>)
    ensures
        file_count_seq(sort_nodes(s)) == file_count_seq(s),
    decreases s.len(),
{
    if s.len() > 0 {
        lemma_file_count_sort_nodes(s.drop_last());
        lemma_file_count_insert_sorted(s.last(), sort_nodes(s.drop_last()));
        lemma_file_count_last(s);
    }
}

/// Runs whose nodes have pairwise equal file counts have equal totals.
proof fn lemma_file_count_pointwise(s: Seq<NodeV>, t: Seq<NodeV>)
    requires
        s.len() == t.len(),
        forall|i: int| 0 <= i < s.len() ==> #[trigger] s[i].file_count() == t[i].file_count(),
    ensures
        file_count_seq(s) == file_count_seq(t),
    decreases s,
{
    if s.len() > 0 {
        assert forall|i: int| 0 <= i < s.skip(1).len() implies #[trigger] s.skip(1)[i].file_count()
            == t.skip(1)[i].file_count() by {
            assert(s.skip(1)[i] == s[i + 1]);
            assert(t.skip(1)[i] == t[i + 1]);
            assert(s[i + 1].file_count() == t[i + 1].file_count());
        }
        lemma_file_count_pointwise(s.skip(1), t.skip(1));
        assert(file_count_seq(s) == s[0].file_count() + file_count_seq(s.skip(1)));
        assert(file_count_seq(t) == t[0].file_count() + file_count_seq(t.skip(1)));
        assert(s[0].file_count() == t[0].file_count());
    }
}

/// The one-time sort keeps the number of file nodes.
pub proof fn lemma_file_count_sort_rec(v: NodeV)
    ensures
        v.sort_rec().file_count() == v.file_count(),
    decreases v,
{
    match v.kind {
        NodeKind::File { .. } => {},
        NodeKind::Dir { children } => {
            lemma_sort_rec_seq(children);
            assert forall|i: int| 0 <= i < children.len() implies #[trigger] sort_rec_seq(
                children,
            )[i].file_count() == children[i].file_count() by {
                lemma_file_count_sort_rec(children[i]);
            }
            lemma_file_count_pointwise(sort_rec_seq(children), children);
            lemma_file_count_sort_nodes(sort_rec_seq(children));
        },
    }
}

/// A freshly grown branch holds exactly one file node.
proof fn lemma_file_count_new_branch(parts: Seq<Seq<char>>, j: int, prefix: Seq<char>, entry: FileEntry)
    requires
        j < parts.len(),
    ensures
        new_branch(parts, j, prefix, entry).file_count() == 1,
    decreases parts.len() - j,
{
    let name = parts[j];
    let path = child_path(prefix, name);
    if j < parts.len() - 1 {
        lemma_file_count_new_branch(parts, j + 1, path, entry);
        let b = new_branch(parts, j + 1, path, entry);
        assert(seq![b].skip(1) =~= Seq::<NodeV>::empty());
        assert(file_count_seq(Seq::<NodeV>::empty()) == 0);
        assert(file_count_seq(seq![b]) == b.file_count() + file_count_seq(seq![b].skip(1)));
        assert(new_branch(parts, j, prefix, entry).file_count() == file_count_seq(seq![b]));
    }
}

/// Whether an insertion grows the tree: the walk runs out of existing
/// nodes before the segments run out.
pub open spec fn insert_creates(v: NodeV, parts: Seq<Seq<char>>, j: int) -> bool
    decreases parts.len() - j,
{
    if j >= parts.len() {
        false
    } else {
        match v.kind {
            NodeKind::File { .. } => false,
            NodeKind::Dir { children } => {
                let idx = find_idx(children, parts[j]);
                if idx >= 0 {
                    insert_creates(children[idx], parts, j + 1)
                } else {
                    true
                }
            },
        }
    }
}

/// A successful insertion adds one file node when it created a branch,
/// and none when the path already led to a node.
pub proof fn lemma_file_count_insert(
    v: NodeV,
    parts: Seq<Seq<char>>,
    j: int,
    prefix: Seq<char>,
    entry: FileEntry,
    keep_sorted: bool,
)
    ensures
        spec_insert_at(v, parts, j, prefix, entry, keep_sorted) matches Ok(v2) ==> v2.file_count()
            == v.file_count() + (if insert_creates(v, parts, j) {
            1int
        } else {
            0int
        }),
    decreases parts.len() - j,
{
    if j < parts.len() {
        match v.kind {
            NodeKind::File { .. } => {},
            NodeKind::Dir { children } => {
                let name = parts[j];
                let idx = find_idx(children, name);
                lemma_find_idx(children, name);
                if idx >= 0 {
                    lemma_file_count_insert(
                        children[idx],
                        parts,
                        j + 1,
                        child_path(prefix, name),
                        entry,
                        keep_sorted,
                    );
                    match spec_insert_at(
                        children[idx],
                        parts,
                        j + 1,
                        child_path(prefix, name),
                        entry,
                        keep_sorted,
                    ) {
                        Ok(c2) => {
                            lemma_file_count_update(children, idx, c2);
                        },
                        Err(_) => {},
                    }
                } else {
                    lemma_file_count_new_branch(parts, j, prefix, entry);
                    lemma_file_count_push(children, new_branch(parts, j, prefix, entry));
                    if keep_sorted {
                        lemma_file_count_sort_nodes(
                            children.push(new_branch(parts, j, prefix, entry)),
                        );
                    }
                }
            },
        }
    }
}


/// Within one directory level, sorted order is canonical: two runs with
/// unique ordered names that hold the same nodes stand in identical
/// order. This is the single-level core of why bulk insertion followed
/// by one sort does not depend on insertion order.
pub proof fn lemma_sorted_run_canonical(s: Seq<NodeV>, t: Seq<NodeV>)
    requires
        names_unique(s),
        names_sorted(s),
        names_unique(t),
        names_sorted(t),
        s.to_multiset() == t.to_multiset(),
    ensures
        s == t,
    decreases s.len(),
{
    broadcast use vstd::seq_lib::group_to_multiset_ensures;

    assert(s.len() == s.to_multiset().len());
    assert(t.len() == t.to_multiset().len());
    if s.len() == 0 {
        assert(s =~= t);
    } else {
        assert(s.contains(s[0]));
        assert(t.to_multiset().count(s[0]) > 0);
        assert(t.contains(s[0]));
        let i = choose|i: int| 0 <= i < t.len() && t[i] == s[0];
        assert(t.contains(t[0]));
        assert(s.to_multiset().count(t[0]) > 0);
        assert(s.contains(t[0]));
        let j = choose|j: int| 0 <= j < s.len() && s[j] == t[0];
        if i > 0 && j > 0 {
            assert(t[0].name == t[i].name || chars_lt(t[0].name, t[i].name));
            assert(s[0].name == s[j].name || chars_lt(s[0].name, s[j].name));
            crate::paths::lemma_chars_order(t[0].name, s[0].name);
            assert(false);
        }
        assert(t[0] == s[0]);
        assert(s.remove(0).to_multiset() =~= s.to_multiset().remove(s[0]));
        assert(t.remove(0).to_multiset() =~= t.to_multiset().remove(t[0]));
        assert(s.remove(0) =~= s.skip(1));
        assert(t.remove(0) =~= t.skip(1));
        assert(forall|k: int| 0 <= k < s.skip(1).len() ==> #[trigger] s.skip(1)[k] == s[k + 1]);
        assert(forall|k: int| 0 <= k < t.skip(1).len() ==> #[trigger] t.skip(1)[k] == t[k + 1]);
        assert(names_unique(s.skip(1)) && names_sorted(s.skip(1)));
        assert(names_unique(t.skip(1)) && names_sorted(t.skip(1)));
        lemma_sorted_run_canonical(s.skip(1), t.skip(1));
        assert forall|k: int| 0 <= k < s.len() implies s[k] == t[k] by {
            if k > 0 {
                assert(s.skip(1)[k - 1] == s[k]);
                assert(t.skip(1)[k - 1] == t[k]);
            }
        }
        assert(s =~= t);
    }
}


/// Ordered insertion adds exactly the new node, keeps order, and takes
/// its elements from the old run and the new node.
proof fn lemma_insert_sorted_props(x: NodeV, s: Seq<NodeV>)
    ensures
        insert_sorted(x, s).to_multiset() == s.to_multiset().insert(x),
        names_sorted(s) ==> names_sorted(insert_sorted(x, s)),
        forall|k: int|
            0 <= k < insert_sorted(x, s).len() ==> #[trigger] insert_sorted(x, s)[k] == x
                || s.contains(insert_sorted(x, s)[k]),
    decreases s.len(),
{
    broadcast use vstd::seq_lib::group_to_multiset_ensures;

    let r = insert_sorted(x, s);
    if s.len() == 0 {
        assert(seq![x] =~= Seq::<NodeV>::empty().push(x));
        assert(r.to_multiset() =~= s.to_multiset().insert(x));
    } else if chars_lt(x.name, s[0].name) {
        assert(r =~= seq![x] + s);
        vstd::seq_lib::lemma_multiset_commutative(seq![x], s);
        assert(seq![x] =~= Seq::<NodeV>::empty().push(x));
        assert(r.to_multiset() =~= s.to_multiset().insert(x));
        if names_sorted(s) {
            assert forall|i: int, j: int|
                0 <= i < j < r.len() implies r[i].name == r[j].name || chars_lt(
                r[i].name,
                r[j].name,
            ) by {
                if i == 0 {
                    assert(r[j] == s[j - 1]);
                    if j > 1 {
                        assert(s[0].name == s[j - 1].name || chars_lt(s[0].name, s[j - 1].name));
                        crate::paths::lemma_chars_lt_trans(x.name, s[0].name, s[j - 1].name);
                    }
                } else {
                    assert(r[i] == s[i - 1] && r[j] == s[j - 1]);
                }
            }
        }
        assert(forall|k: int| 1 <= k < r.len() ==> #[trigger] r[k] == s[k - 1]);
    } else {
        lemma_insert_sorted_props(x, s.skip(1));
        let inner = insert_sorted(x, s.skip(1));
        assert(r =~= seq![s[0]] + inner);
        vstd::seq_lib::lemma_multiset_commutative(seq![s[0]], inner);
        assert(seq![s[0]] =~= Seq::<NodeV>::empty().push(s[0]));
        assert(s =~= seq![s[0]] + s.skip(1));
        vstd::seq_lib::lemma_multiset_commutative(seq![s[0]], s.skip(1));
        assert(r.to_multiset() =~= s.to_multiset().insert(x));
        assert(forall|k: int| 0 <= k < s.skip(1).len() ==> #[trigger] s.skip(1)[k] == s[k + 1]);
        assert forall|k: int| 0 <= k < r.len() implies #[trigger] r[k] == x || s.contains(
            r[k],
        ) by {
            if k == 0 {
                assert(s[0] == r[k]);
            } else {
                assert(r[k] == inner[k - 1]);
                if inner[k - 1] != x {
                    assert(s.skip(1).contains(inner[k - 1]));
                    let w = choose|w: int|
                        0 <= w < s.skip(1).len() && s.skip(1)[w] == inner[k - 1];
                    assert(s[w + 1] == r[k]);
                }
            }
        }
        if names_sorted(s) {
            assert(names_sorted(s.skip(1)));
            crate::paths::lemma_chars_order(x.name, s[0].name);
            assert forall|i: int, j: int|
                0 <= i < j < r.len() implies r[i].name == r[j].name || chars_lt(
                r[i].name,
                r[j].name,
            ) by {
                if i == 0 {
                    assert(r[j] == inner[j - 1]);
                    if inner[j - 1] == x {
                    } else {
                        assert(s.skip(1).contains(inner[j - 1]));
                        let w = choose|w: int|
                            0 <= w < s.skip(1).len() && s.skip(1)[w] == inner[j - 1];
                        assert(s.skip(1)[w] == s[w + 1]);
                        assert(s[0].name == s[w + 1].name || chars_lt(s[0].name, s[w + 1].name));
                    }
                } else {
                    assert(r[i] == inner[i - 1] && r[j] == inner[j - 1]);
                }
            }
        }
    }
}

/// One sort pass orders a run by name and keeps exactly its nodes.
pub proof fn lemma_sort_nodes_props(s: Seq<NodeV>)
    ensures
        names_sorted(sort_nodes(s)),
        sort_nodes(s).to_multiset() == s.to_multiset(),
    decreases s.len(),
{
    broadcast use vstd::seq_lib::group_to_multiset_ensures;

    if s.len() == 0 {
        assert(sort_nodes(s).to_multiset() =~= s.to_multiset());
    } else {
        lemma_sort_nodes_props(s.drop_last());
        lemma_insert_sorted_props(s.last(), sort_nodes(s.drop_last()));
        assert(s.drop_last().push(s.last()) =~= s);
        assert(sort_nodes(s).to_multiset() =~= s.to_multiset());
    }
}

/// A run whose nodes come from a run with unique names has unique names
/// itself.
proof fn lemma_names_unique_from_multiset(s: Seq<NodeV>, t: Seq<NodeV>)
    requires
        names_unique(s),
        t.to_multiset() == s.to_multiset(),
    ensures
        names_unique(t),
{
    broadcast use vstd::seq_lib::group_to_multiset_ensures;

    assert(s.no_duplicates()) by {
        assert(forall|i: int, j: int|
            0 <= i < j < s.len() ==> s[i] != s[j] || s[i].name == s[j].name);
    }
    s.lemma_multiset_has_no_duplicates();
    t.lemma_multiset_has_no_duplicates_conv();
    assert forall|i: int, j: int| 0 <= i < j < t.len() implies t[i].name != t[j].name by {
        if t[i].name == t[j].name {
            assert(t[i] != t[j]);
            assert(t.contains(t[i]) && t.contains(t[j]));
            assert(s.to_multiset().count(t[i]) > 0 && s.to_multiset().count(t[j]) > 0);
            assert(s.contains(t[i]) && s.contains(t[j]));
            let a = choose|a: int| 0 <= a < s.len() && s[a] == t[i];
            let b = choose|b: int| 0 <= b < s.len() && s[b] == t[j];
            assert(a != b);
            assert(s[a].name != s[b].name);
            assert(false);
        }
    }
}

/// Sorting the same nodes, however they were arranged, yields the same
/// ordered run: with unique names, the sorted order of a level does not
/// depend on the order its nodes arrived in.
pub proof fn lemma_sort_order_independent(s: Seq<NodeV>, t: Seq<NodeV>)
    requires
        names_unique(s),
        s.to_multiset() == t.to_multiset(),
    ensures
        sort_nodes(s) == sort_nodes(t),
{
    lemma_sort_nodes_props(s);
    lemma_sort_nodes_props(t);
    lemma_names_unique_from_multiset(s, sort_nodes(s));
    lemma_names_unique_from_multiset(s, sort_nodes(t));
    lemma_sorted_run_canonical(sort_nodes(s), sort_nodes(t));
}


/// The one-time sort pass leaves every directory of the tree ordered by
/// name, so binary-search lookup is valid on the result.
pub proof fn lemma_sort_rec_sorted(v: NodeV)
    ensures
        v.sort_rec().sorted(),
    decreases v,
{
    broadcast use vstd::seq_lib::group_to_multiset_ensures;

    match v.kind {
        NodeKind::File { .. } => {},
        NodeKind::Dir { children } => {
            lemma_sort_rec_seq(children);
            let mid = sort_rec_seq(children);
            assert forall|i: int| 0 <= i < mid.len() implies #[trigger] mid[i].sorted() by {
                lemma_sort_rec_sorted(children[i]);
            }
            let fin = sort_nodes(mid);
            lemma_sort_nodes_props(mid);
            assert forall|i: int| 0 <= i < fin.len() implies #[trigger] fin[i].sorted() by {
                assert(fin.contains(fin[i]));
                assert(mid.to_multiset().count(fin[i]) > 0);
                assert(mid.contains(fin[i]));
                let w = choose|w: int| 0 <= w < mid.len() && mid[w] == fin[i];
                assert(mid[w].sorted());
            }
            lemma_seq_wf(fin);
        },
    }
}


/// A freshly grown branch is well formed and carries its first segment
/// as its name.
proof fn lemma_new_branch_wf(parts: Seq<Seq<char>>, j: int, prefix: Seq<char>, entry: FileEntry)
    requires
        j < parts.len(),
    ensures
        new_branch(parts, j, prefix, entry).wf(),
        new_branch(parts, j, prefix, entry).name == parts[j],
    decreases parts.len() - j,
{
    let name = parts[j];
    let path = child_path(prefix, name);
    if j < parts.len() - 1 {
        lemma_new_branch_wf(parts, j + 1, path, entry);
        let b = new_branch(parts, j + 1, path, entry);
        assert(seq![b].skip(1) =~= Seq::<NodeV>::empty());
        assert(seq_wf(seq![b]) == (b.wf() && seq_wf(seq![b].skip(1))));
    }
}

/// Insertion keeps a tree well formed, and never renames or moves the
/// node it runs on.
pub proof fn lemma_insert_wf(
    v: NodeV,
    parts: Seq<Seq<char>>,
    j: int,
    prefix: Seq<char>,
    entry: FileEntry,
    keep_sorted: bool,
)
    ensures
        spec_insert_at(v, parts, j, prefix, entry, keep_sorted) matches Ok(v2) ==> (v.wf()
            ==> v2.wf()) && v2.name == v.name && v2.path == v.path,
    decreases parts.len() - j,
{
    broadcast use vstd::seq_lib::group_to_multiset_ensures;

    if j < parts.len() {
        match v.kind {
            NodeKind::File { .. } => {},
            NodeKind::Dir { children } => {
                let name = parts[j];
                let idx = find_idx(children, name);
                lemma_find_idx(children, name);
                lemma_seq_wf(children);
                if idx >= 0 {
                    lemma_insert_wf(
                        children[idx],
                        parts,
                        j + 1,
                        child_path(prefix, name),
                        entry,
                        keep_sorted,
                    );
                    match spec_insert_at(
                        children[idx],
                        parts,
                        j + 1,
                        child_path(prefix, name),
                        entry,
                        keep_sorted,
                    ) {
                        Ok(c2) => {
                            let cs = children.update(idx, c2);
                            if v.wf() {
                                assert(forall|k: int|
                                    0 <= k < cs.len() && k != idx ==> #[trigger] cs[k]
                                        == children[k]);
                                assert(names_unique(cs));
                                lemma_seq_wf(cs);
                            }
                        },
                        Err(_) => {},
                    }
                } else {
                    lemma_new_branch_wf(parts, j, prefix, entry);
                    let b = new_branch(parts, j, prefix, entry);
                    let cs = children.push(b);
                    if v.wf() {
                        assert(forall|k: int|
                            0 <= k < children.len() ==> #[trigger] cs[k] == children[k]);
                        assert(names_unique(cs));
                        lemma_seq_wf(cs);
                        if keep_sorted {
                            lemma_sort_nodes_props(cs);
                            lemma_names_unique_from_multiset(cs, sort_nodes(cs));
                            assert forall|i: int|
                                0 <= i < sort_nodes(cs).len() implies #[trigger] sort_nodes(
                                cs,
                            )[i].wf() by {
                                assert(sort_nodes(cs).contains(sort_nodes(cs)[i]));
                                assert(cs.to_multiset().count(sort_nodes(cs)[i]) > 0);
                                assert(cs.contains(sort_nodes(cs)[i]));
                                let w = choose|w: int|
                                    0 <= w < cs.len() && cs[w] == sort_nodes(cs)[i];
                                assert(cs[w].wf());
                            }
                            lemma_seq_wf(sort_nodes(cs));
                        }
                    }
                }
            },
        }
    }
}

/// The one-time sort keeps the tree well formed.
pub proof fn lemma_sort_rec_wf(v: NodeV)
    ensures
        v.wf() ==> v.sort_rec().wf(),
        v.sort_rec().name == v.name,
        v.sort_rec().path == v.path,
    decreases v,
{
    broadcast use vstd::seq_lib::group_to_multiset_ensures;

    match v.kind {
        NodeKind::File { .. } => {},
        NodeKind::Dir { children } => {
            if v.wf() {
                lemma_seq_wf(children);
                lemma_sort_rec_seq(children);
                let mid = sort_rec_seq(children);
                assert forall|i: int| 0 <= i < mid.len() implies #[trigger] mid[i].wf()
                    && mid[i].name == children[i].name by {
                    lemma_sort_rec_wf(children[i]);
                }
                assert(names_unique(mid));
                let fin = sort_nodes(mid);
                lemma_sort_nodes_props(mid);
                lemma_names_unique_from_multiset(mid, fin);
                assert forall|i: int| 0 <= i < fin.len() implies #[trigger] fin[i].wf() by {
                    assert(fin.contains(fin[i]));
                    assert(mid.to_multiset().count(fin[i]) > 0);
                    assert(mid.contains(fin[i]));
                    let w = choose|w: int| 0 <= w < mid.len() && mid[w] == fin[i];
                    assert(mid[w].wf());
                }
                lemma_seq_wf(fin);
            }
        },
    }
}

} // verus!
