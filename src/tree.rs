//! The document tree: sections nested by heading depth, and the reads that
//! walk it in document order.
use vstd::prelude::*;

verus! {

broadcast use vstd::std_specs::vec::group_vec_axioms;

/// One heading-delimited section, as a mathematical value.
pub struct NodeModel {
    pub node_id: Seq<char>,
    pub title: Seq<char>,
    pub depth: nat,
    pub text: Seq<char>,
    pub summary: Option<Seq<char>>,
    pub children: Seq<NodeModel>,
}

/// One heading-delimited section and the sections nested in it.
pub struct Node {
    pub node_id: String,
    pub title: String,
    pub depth: usize,
    pub text: String,
    pub summary: Option<String>,
    pub children: Vec<Node>,
}

pub open spec fn opt_view(s: Option<String>) -> Option<Seq<char>> {
    match s {
        Some(x) => Some(x@),
        None => None,
    }
}

impl View for Node {
    type V = NodeModel;

    open spec fn view(&self) -> NodeModel
        decreases self,
    {
        NodeModel {
            node_id: self.node_id@,
            title: self.title@,
            depth: self.depth as nat,
            text: self.text@,
            summary: opt_view(self.summary),
            children: views(self.children@),
        }
    }
}

/// The models of a sequence of nodes.
pub open spec fn views(s: Seq<Node>) -> Seq<NodeModel>
    decreases s,
{
    if s.len() == 0 {
        Seq::empty()
    } else {
        views(s.drop_last()).push(s.last()@)
    }
}

pub open spec fn str_views(s: Seq<String>) -> Seq<Seq<char>> {
    s.map_values(|x: String| x@)
}

pub open spec fn ref_views(s: Seq<&Node>) -> Seq<NodeModel> {
    s.map_values(|x: &Node| x@)
}

/// The id of the synthetic aggregator root.
pub open spec fn aggregator_id() -> Seq<char> {
    seq!['0']
}

/// The ids of `m` and its descendants, in preorder.
pub open spec fn ids(m: NodeModel) -> Seq<Seq<char>>
    decreases m,
{
    seq![m.node_id] + ids_all(m.children)
}

pub open spec fn ids_all(s: Seq<NodeModel>) -> Seq<Seq<char>>
    decreases s,
{
    if s.len() == 0 {
        Seq::empty()
    } else {
        ids_all(s.drop_last()) + ids(s.last())
    }
}

/// `m` and its descendants, in preorder.
pub open spec fn flat(m: NodeModel) -> Seq<NodeModel>
    decreases m,
{
    seq![m] + flat_all(m.children)
}

pub open spec fn flat_all(s: Seq<NodeModel>) -> Seq<NodeModel>
    decreases s,
{
    if s.len() == 0 {
        Seq::empty()
    } else {
        flat_all(s.drop_last()) + flat(s.last())
    }
}

/// The first node in preorder, from `m` down, whose id is `id`.
pub open spec fn find_in(m: NodeModel, id: Seq<char>) -> Option<NodeModel>
    decreases m,
{
    if m.node_id == id {
        Some(m)
    } else {
        find_all(m.children, id)
    }
}

pub open spec fn find_all(s: Seq<NodeModel>, id: Seq<char>) -> Option<NodeModel>
    decreases s,
{
    if s.len() == 0 {
        None
    } else {
        match find_all(s.drop_last(), id) {
            Some(n) => Some(n),
            None => find_in(s.last(), id),
        }
    }
}

pub proof fn lemma_views(s: Seq<Node>)
    ensures
        views(s).len() == s.len(),
        forall|i: int| 0 <= i < s.len() ==> #[trigger] views(s)[i] == s[i]@,
    decreases s.len(),
{
    if s.len() > 0 {
        lemma_views(s.drop_last());
        assert(views(s) == views(s.drop_last()).push(s.last()@));
    } else {
        assert(views(s) == Seq::<NodeModel>::empty());
    }
}

pub proof fn lemma_views_take(s: Seq<Node>, i: int)
    requires
        0 <= i < s.len(),
    ensures
        views(s.take(i + 1)) == views(s.take(i)).push(s[i]@),
        views(s.take(i + 1)).drop_last() == views(s.take(i)),
{
    assert(s.take(i + 1).drop_last() == s.take(i));
}

proof fn lemma_views_all(s: Seq<Node>)
    ensures
        views(s.take(s.len() as int)) == views(s),
{
    assert(s.take(s.len() as int) == s);
}

/// Whether `id` is the id of the synthetic aggregator root.
pub fn is_aggregator_id(id: &String) -> (r: bool)
    ensures
        r == (id@ == aggregator_id()),
{
    let s = id.as_str();
    let n = s.unicode_len();
    if n != 1 {
        return false;
    }
    let c = s.get_char(0);
    if c == '0' {
        assert(s@ == aggregator_id());
        true
    } else {
        false
    }
}

impl Node {
    pub fn new(node_id: String, title: String, depth: usize, text: String) -> (r: Node)
        ensures
            r.node_id == node_id,
            r.title == title,
            r.depth == depth,
            r.text == text,
            r.summary is None,
            r.children@.len() == 0,
            r@.children.len() == 0,
    {
        Node { node_id, title, depth, text, summary: None, children: Vec::new() }
    }

    fn find_id(&self, id: &String) -> (r: Option<&Node>)
        ensures
            match r {
                Some(n) => find_in(self@, id@) == Some(n@),
                None => find_in(self@, id@) is None,
            },
        decreases self,
    {
        if self.node_id == *id {
            return Some(self);
        }
        let ghost cs = self.children@;
        let mut i: usize = 0;
        while i < self.children.len()
            invariant
                i <= self.children.len(),
                cs == self.children@,
                self.node_id@ != id@,
                find_all(views(cs.take(i as int)), id@) is None,
            decreases self.children.len() - i,
        {
            proof {
                lemma_views_take(cs, i as int);
            }
            let found = self.children[i].find_id(id);
            if let Some(n) = found {
                proof {
                    lemma_views(cs);
                    assert(find_all(views(cs.take(i + 1)), id@) == Some(n@));
                    lemma_find_all_extend(cs, i as int + 1, id@);
                }
                return Some(n);
            }
            i += 1;
        }
        proof {
            lemma_views_all(cs);
        }
        None
    }

    /// The first node, in preorder from this one, whose id is `node_id`.
    pub fn find(&self, node_id: &str) -> (r: Option<&Node>)
        ensures
            match r {
                Some(n) => find_in(self@, node_id@) == Some(n@),
                None => find_in(self@, node_id@) is None,
            },
    {
        let id = node_id.to_owned();
        self.find_id(&id)
    }

    /// The ids of this node and its descendants, in preorder.
    pub fn all_ids(&self) -> (r: Vec<String>)
        ensures
            str_views(r@) == ids(self@),
        decreases self,
    {
        let mut out: Vec<String> = Vec::new();
        out.push(self.node_id.clone());
        let ghost cs = self.children@;
        let mut i: usize = 0;
        while i < self.children.len()
            invariant
                i <= self.children.len(),
                cs == self.children@,
                str_views(out@) == seq![self.node_id@] + ids_all(views(cs.take(i as int))),
            decreases self.children.len() - i,
        {
            proof {
                lemma_views_take(cs, i as int);
            }
            let mut sub = self.children[i].all_ids();
            let ghost before = out@;
            out.append(&mut sub);
            assert(str_views(out@) == str_views(before) + ids(cs[i as int]@));
            i += 1;
        }
        proof {
            lemma_views_all(cs);
        }
        out
    }

    /// This node and its descendants, in preorder.
    pub fn flatten(&self) -> (r: Vec<&Node>)
        ensures
            ref_views(r@) == flat(self@),
        decreases self,
    {
        let mut out: Vec<&Node> = Vec::new();
        out.push(self);
        let ghost cs = self.children@;
        let mut i: usize = 0;
        while i < self.children.len()
            invariant
                i <= self.children.len(),
                cs == self.children@,
                ref_views(out@) == seq![self@] + flat_all(views(cs.take(i as int))),
            decreases self.children.len() - i,
        {
            proof {
                lemma_views_take(cs, i as int);
            }
            let mut sub = self.children[i].flatten();
            let ghost before = out@;
            out.append(&mut sub);
            assert(ref_views(out@) == ref_views(before) + flat(cs[i as int]@));
            i += 1;
        }
        proof {
            lemma_views_all(cs);
        }
        out
    }
}

/// The parse result for one document.
pub struct DocumentTree {
    pub doc_id: String,
    pub title: String,
    pub description: Option<String>,
    pub root: Node,
}

/// The ids of the real sections under `root`, in preorder: the aggregator
/// root's own id is left out.
pub open spec fn tree_ids(root: NodeModel) -> Seq<Seq<char>> {
    if root.node_id == aggregator_id() {
        ids_all(root.children)
    } else {
        ids(root)
    }
}

/// The real sections under `root`, in preorder.
pub open spec fn tree_nodes(root: NodeModel) -> Seq<NodeModel> {
    if root.node_id == aggregator_id() {
        flat_all(root.children)
    } else {
        flat(root)
    }
}

impl DocumentTree {
    pub fn new(doc_id: String, title: String, root: Node) -> (r: DocumentTree)
        ensures
            r.doc_id == doc_id,
            r.title == title,
            r.description is None,
            r.root == root,
    {
        DocumentTree { doc_id, title, description: None, root }
    }

    /// The first node in preorder whose id is `node_id`.
    pub fn find_node(&self, node_id: &str) -> (r: Option<&Node>)
        ensures
            match r {
                Some(n) => find_in(self.root@, node_id@) == Some(n@),
                None => find_in(self.root@, node_id@) is None,
            },
    {
        self.root.find(node_id)
    }

    /// The ids of every real section, in document order.
    pub fn all_node_ids(&self) -> (r: Vec<String>)
        ensures
            str_views(r@) == tree_ids(self.root@),
    {
        if is_aggregator_id(&self.root.node_id) {
            let ghost cs = self.root.children@;
            let mut out: Vec<String> = Vec::new();
            let mut i: usize = 0;
            while i < self.root.children.len()
                invariant
                    i <= cs.len(),
                    cs == self.root.children@,
                    str_views(out@) == ids_all(views(cs.take(i as int))),
                decreases cs.len() - i,
            {
                proof {
                    lemma_views_take(cs, i as int);
                }
                let mut sub = self.root.children[i].all_ids();
                let ghost before = out@;
                out.append(&mut sub);
                assert(str_views(out@) == str_views(before) + ids(cs[i as int]@));
                i += 1;
            }
            proof {
                lemma_views_all(cs);
            }
            out
        } else {
            self.root.all_ids()
        }
    }

    /// Every real section, in document order.
    pub fn all_nodes(&self) -> (r: Vec<&Node>)
        ensures
            ref_views(r@) == tree_nodes(self.root@),
    {
        if is_aggregator_id(&self.root.node_id) {
            let ghost cs = self.root.children@;
            let mut out: Vec<&Node> = Vec::new();
            let mut i: usize = 0;
            while i < self.root.children.len()
                invariant
                    i <= cs.len(),
                    cs == self.root.children@,
                    ref_views(out@) == flat_all(views(cs.take(i as int))),
                decreases cs.len() - i,
            {
                proof {
                    lemma_views_take(cs, i as int);
                }
                let mut sub = self.root.children[i].flatten();
                let ghost before = out@;
                out.append(&mut sub);
                assert(ref_views(out@) == ref_views(before) + flat(cs[i as int]@));
                i += 1;
            }
            proof {
                lemma_views_all(cs);
            }
            out
        } else {
            self.root.flatten()
        }
    }
}

proof fn lemma_find_all_extend(cs: Seq<Node>, k: int, id: Seq<char>)
    requires
        0 <= k <= cs.len(),
        find_all(views(cs.take(k)), id) is Some,
    ensures
        find_all(views(cs), id) == find_all(views(cs.take(k)), id),
    decreases cs.len() - k,
{
    if k < cs.len() {
        lemma_views_take(cs, k);
        assert(views(cs.take(k + 1)).drop_last() == views(cs.take(k)));
        lemma_find_all_extend(cs, k + 1, id);
    } else {
        lemma_views_all(cs);
    }
}

} // verus!
