//! Read-only queries over a `DocumentTree`: a node with its breadcrumb, a
//! node with the text of its whole subtree, its children, and the outline.
use vstd::prelude::*;
use crate::text::{chars_of, push_all, push_repeat, repeat, string_of};
use crate::text::{decimal, digit};
use crate::parser::{
    blocks, counter, depths, dotted, forest, id_after, leaf, leaves, lemma_ids_all_single,
    lemma_seg_depths, lemma_span_bound, root_of, span, with_children, BlockModel,
};
use crate::tree::{
    aggregator_id, find_all, find_in, ids, ids_all, is_aggregator_id, lemma_views, lemma_views_take, opt_view,
    str_views, views, DocumentTree, Node, NodeModel,
};

verus! {

broadcast use vstd::std_specs::vec::group_vec_axioms;

/// A node as a query returns it.
pub struct TraversalResult {
    pub node_id: String,
    pub title: String,
    pub text: String,
    pub summary: Option<String>,
    pub depth: usize,
    pub breadcrumb: Vec<String>,
}

/// The prefixes of `id` that end right before a `.`, shortest first.
pub open spec fn cuts(id: Seq<char>) -> Seq<Seq<char>>
    decreases id.len(),
{
    if id.len() == 0 {
        Seq::empty()
    } else if id.last() == '.' {
        cuts(id.drop_last()).push(id.drop_last())
    } else {
        cuts(id.drop_last())
    }
}

/// The titles of the nodes found under `root` for the ids `ps`, in order;
/// an id that finds no node adds nothing.
pub open spec fn crumbs(root: NodeModel, ps: Seq<Seq<char>>) -> Seq<Seq<char>>
    decreases ps.len(),
{
    if ps.len() == 0 {
        Seq::empty()
    } else {
        match find_in(root, ps.last()) {
            Some(n) => crumbs(root, ps.drop_last()).push(n.title),
            None => crumbs(root, ps.drop_last()),
        }
    }
}

/// The titles along the path to `id`: one for each dot-separated prefix of
/// `id` that names a node, ending with `id` itself.
pub open spec fn breadcrumb(root: NodeModel, id: Seq<char>) -> Seq<Seq<char>> {
    crumbs(root, cuts(id).push(id))
}

/// Whether `r` reports node `m` with text `text` and breadcrumb `bc`.
pub open spec fn reports(r: TraversalResult, m: NodeModel, text: Seq<char>, bc: Seq<Seq<char>>) -> bool {
    &&& r.node_id@ == m.node_id
    &&& r.title@ == m.title
    &&& r.text@ == text
    &&& opt_view(r.summary) == m.summary
    &&& r.depth as nat == m.depth
    &&& str_views(r.breadcrumb@) == bc
}

/// The heading line that introduces `m` inside its parent's text.
pub open spec fn heading_line(m: NodeModel) -> Seq<char> {
    repeat('#', m.depth) + seq![' '] + m.title
}

/// `acc` followed by `part`, with a blank line between when both are non-empty.
pub open spec fn join_step(acc: Seq<char>, part: Seq<char>) -> Seq<char> {
    if part.len() == 0 {
        acc
    } else if acc.len() == 0 {
        part
    } else {
        acc + seq!['\n', '\n'] + part
    }
}

/// The non-empty parts, joined with blank lines.
pub open spec fn join_parts(ps: Seq<Seq<char>>) -> Seq<char>
    decreases ps.len(),
{
    if ps.len() == 0 {
        Seq::empty()
    } else {
        join_step(join_parts(ps.drop_last()), ps.last())
    }
}

/// The text of `m` and of all its descendants, each child introduced by its
/// heading line.
pub open spec fn subtree_text(m: NodeModel) -> Seq<char>
    decreases m,
{
    join_parts(seq![m.text] + child_parts(m.children))
}

pub open spec fn child_parts(cs: Seq<NodeModel>) -> Seq<Seq<char>>
    decreases cs,
{
    if cs.len() == 0 {
        Seq::empty()
    } else {
        child_parts(cs.drop_last()) + seq![heading_line(cs.last()), subtree_text(cs.last())]
    }
}

/// The indentation of a node of depth `d` in the outline.
pub open spec fn indent(d: nat) -> nat {
    if d >= 1 {
        2 * (d - 1) as nat
    } else {
        0
    }
}

/// The outline line of `m`: its indentation, then `[id] title`.
pub open spec fn outline_line(m: NodeModel) -> Seq<char> {
    repeat(' ', indent(m.depth)) + seq!['['] + m.node_id + seq![']', ' '] + m.title
}

/// The outline lines of `m` and its descendants in preorder; the aggregator
/// root has none of its own.
pub open spec fn outline_lines(m: NodeModel) -> Seq<Seq<char>>
    decreases m,
{
    (if m.node_id == aggregator_id() {
        Seq::empty()
    } else {
        seq![outline_line(m)]
    }) + outline_all(m.children)
}

pub open spec fn outline_all(cs: Seq<NodeModel>) -> Seq<Seq<char>>
    decreases cs,
{
    if cs.len() == 0 {
        Seq::empty()
    } else {
        outline_all(cs.drop_last()) + outline_lines(cs.last())
    }
}

/// The lines joined with `\n`.
pub open spec fn join_lines(ls: Seq<Seq<char>>) -> Seq<char>
    decreases ls.len(),
{
    if ls.len() == 0 {
        Seq::empty()
    } else if ls.len() == 1 {
        ls[0]
    } else {
        join_lines(ls.drop_last()) + seq!['\n'] + ls.last()
    }
}

pub open spec fn outline(root: NodeModel) -> Seq<char> {
    join_lines(outline_lines(root))
}

pub open spec fn char_views(ls: Seq<Vec<char>>) -> Seq<Seq<char>> {
    ls.map_values(|l: Vec<char>| l@)
}

fn build_breadcrumb(tree: &DocumentTree, node_id: &str) -> (r: Vec<String>)
    ensures
        str_views(r@) == breadcrumb(tree.root@, node_id@),
{
    let chars = chars_of(node_id);
    let mut out: Vec<String> = Vec::new();
    let mut cur: Vec<char> = Vec::new();
    let mut i: usize = 0;
    while i < chars.len()
        invariant
            i <= chars.len(),
            chars@ == node_id@,
            cur@ == chars@.take(i as int),
            str_views(out@) == crumbs(tree.root@, cuts(chars@.take(i as int))),
        decreases chars.len() - i,
    {
        let ghost pre = chars@.take(i as int);
        assert(chars@.take(i + 1).drop_last() == pre);
        if chars[i] == '.' {
            let p = string_of(&cur);
            let found = tree.find_node(p.as_str());
            assert(cuts(chars@.take(i + 1)) == cuts(pre).push(pre));
            assert(cuts(pre).push(pre).drop_last() == cuts(pre));
            if let Some(n) = found {
                let ghost before = out@;
                out.push(n.title.clone());
                assert(str_views(out@) == str_views(before).push(n.title@));
            }
        }
        cur.push(chars[i]);
        i += 1;
    }
    assert(chars@.take(chars.len() as int) == chars@);
    let whole = string_of(&cur);
    let ghost cs = cuts(node_id@);
    assert(cs.push(node_id@).drop_last() == cs);
    let found = tree.find_node(whole.as_str());
    if let Some(n) = found {
        let ghost before = out@;
        out.push(n.title.clone());
        assert(str_views(out@) == str_views(before).push(n.title@));
    }
    out
}

fn clone_summary(s: &Option<String>) -> (r: Option<String>)
    ensures
        opt_view(r) == opt_view(*s),
{
    match s {
        Some(x) => Some(x.clone()),
        None => None,
    }
}

/// The node with id `node_id`, with its own text and its breadcrumb.
pub fn get_node(tree: &DocumentTree, node_id: &str) -> (r: Option<TraversalResult>)
    ensures
        match find_in(tree.root@, node_id@) {
            Some(m) => r is Some && reports(
                r->0,
                m,
                m.text,
                breadcrumb(tree.root@, node_id@),
            ),
            None => r is None,
        },
{
    let breadcrumb = build_breadcrumb(tree, node_id);
    match tree.find_node(node_id) {
        Some(node) => Some(
            TraversalResult {
                node_id: node.node_id.clone(),
                title: node.title.clone(),
                text: node.text.clone(),
                summary: clone_summary(&node.summary),
                depth: node.depth,
                breadcrumb,
            },
        ),
        None => None,
    }
}

/// Appends `part` to `acc`, with a blank line between when both are non-empty.
fn join_push(acc: &mut Vec<char>, part: &Vec<char>)
    ensures
        final(acc)@ == join_step(old(acc)@, part@),
{
    if part.len() == 0 {
        return;
    }
    if acc.len() == 0 {
        push_all(acc, part.as_slice());
        return;
    }
    acc.push('\n');
    acc.push('\n');
    push_all(acc, part.as_slice());
    assert(final(acc)@ == old(acc)@ + seq!['\n', '\n'] + part@);
}

/// The text of `node` and of all its descendants, each child introduced by
/// its heading line.
fn collect_subtree_text(node: &Node) -> (r: Vec<char>)
    ensures
        r@ == subtree_text(node@),
    decreases node,
{
    let ghost cs = node.children@;
    let mut acc = chars_of(node.text.as_str());
    assert(cs.take(0).len() == 0);
    assert(views(cs.take(0)) == Seq::<NodeModel>::empty());
    assert(child_parts(views(cs.take(0))) == Seq::<Seq<char>>::empty());
    assert(seq![node.text@].drop_last() == Seq::<Seq<char>>::empty());
    assert(seq![node.text@] + child_parts(views(cs.take(0))) == seq![node.text@]);
    assert(join_parts(Seq::<Seq<char>>::empty()) == Seq::<char>::empty());
    assert(join_parts(seq![node.text@]) == join_step(Seq::empty(), node.text@));
    let mut i: usize = 0;
    while i < node.children.len()
        invariant
            i <= cs.len(),
            cs == node.children@,
            acc@ == join_parts(seq![node.text@] + child_parts(views(cs.take(i as int)))),
        decreases cs.len() - i,
    {
        proof {
            lemma_views_take(cs, i as int);
        }
        let child = &node.children[i];
        let mut h: Vec<char> = Vec::new();
        push_repeat(&mut h, '#', child.depth);
        h.push(' ');
        push_all(&mut h, chars_of(child.title.as_str()).as_slice());
        let sub = collect_subtree_text(child);
        let ghost ps = seq![node.text@] + child_parts(views(cs.take(i as int)));
        let ghost ps1 = seq![node.text@] + child_parts(views(cs.take(i + 1)));
        assert(h@ == heading_line(child@));
        assert(ps1 == ps.push(h@).push(sub@));
        assert(ps1.drop_last() == ps.push(h@));
        assert(ps.push(h@).drop_last() == ps);
        assert(join_parts(ps.push(h@)) == join_step(join_parts(ps), h@));
        assert(join_parts(ps1) == join_step(join_parts(ps.push(h@)), sub@));
        join_push(&mut acc, &h);
        join_push(&mut acc, &sub);
        i += 1;
    }
    assert(cs.take(cs.len() as int) == cs);
    acc
}

/// The node with id `node_id`, with the text of its whole subtree and its
/// breadcrumb.
pub fn get_node_with_children(tree: &DocumentTree, node_id: &str) -> (r: Option<TraversalResult>)
    ensures
        match find_in(tree.root@, node_id@) {
            Some(m) => r is Some && reports(
                r->0,
                m,
                subtree_text(m),
                breadcrumb(tree.root@, node_id@),
            ),
            None => r is None,
        },
{
    let breadcrumb = build_breadcrumb(tree, node_id);
    match tree.find_node(node_id) {
        Some(node) => {
            let full = collect_subtree_text(node);
            Some(
                TraversalResult {
                    node_id: node.node_id.clone(),
                    title: node.title.clone(),
                    text: string_of(&full),
                    summary: clone_summary(&node.summary),
                    depth: node.depth,
                    breadcrumb,
                },
            )
        },
        None => None,
    }
}

/// The ids and titles of the direct children of node `node_id`; empty when
/// there is no such node.
pub fn get_children(tree: &DocumentTree, node_id: &str) -> (r: Vec<(String, String)>)
    ensures
        match find_in(tree.root@, node_id@) {
            Some(m) => r@.len() == m.children.len() && forall|i: int|
                0 <= i < r@.len() ==> (#[trigger] r@[i]).0@ == m.children[i].node_id
                    && r@[i].1@ == m.children[i].title,
            None => r@.len() == 0,
        },
{
    let mut out: Vec<(String, String)> = Vec::new();
    match tree.find_node(node_id) {
        Some(node) => {
            proof {
                lemma_views(node.children@);
            }
            let mut i: usize = 0;
            while i < node.children.len()
                invariant
                    i <= node.children@.len(),
                    node@.children == views(node.children@),
                    views(node.children@).len() == node.children@.len(),
                    forall|j: int| 0 <= j < node.children@.len() ==> #[trigger] views(node.children@)[j] == node.children@[j]@,
                    out@.len() == i,
                    forall|j: int|
                        0 <= j < i ==> (#[trigger] out@[j]).0@ == node@.children[j].node_id
                            && out@[j].1@ == node@.children[j].title,
                decreases node.children.len() - i,
            {
                let c = &node.children[i];
                out.push((c.node_id.clone(), c.title.clone()));
                i += 1;
            }
        },
        None => {},
    }
    out
}

/// Appends the outline lines of `node` and its descendants.
fn outline_node(node: &Node, lines: &mut Vec<Vec<char>>)
    ensures
        char_views(final(lines)@) == char_views(old(lines)@) + outline_lines(node@),
    decreases node,
{
    let ghost start = char_views(lines@);
    if !is_aggregator_id(&node.node_id) {
        let mut line: Vec<char> = Vec::new();
        let d: usize = if node.depth >= 1 { node.depth - 1 } else { 0 };
        push_repeat(&mut line, ' ', d);
        push_repeat(&mut line, ' ', d);
        line.push('[');
        push_all(&mut line, chars_of(node.node_id.as_str()).as_slice());
        line.push(']');
        line.push(' ');
        push_all(&mut line, chars_of(node.title.as_str()).as_slice());
        assert(repeat(' ', d as nat) + repeat(' ', d as nat) == repeat(' ', indent(node@.depth)));
        assert(line@ == outline_line(node@));
        let ghost before = lines@;
        lines.push(line);
        assert(char_views(lines@) == char_views(before).push(outline_line(node@)));
    }
    let ghost own = char_views(lines@);
    assert(own == start + (if node@.node_id == aggregator_id() {
        Seq::<Seq<char>>::empty()
    } else {
        seq![outline_line(node@)]
    }));
    let ghost cs = node.children@;
    let mut i: usize = 0;
    while i < node.children.len()
        invariant
            i <= cs.len(),
            cs == node.children@,
            char_views(lines@) == own + outline_all(views(cs.take(i as int))),
        decreases cs.len() - i,
    {
        proof {
            lemma_views_take(cs, i as int);
        }
        outline_node(&node.children[i], lines);
        i += 1;
    }
    assert(cs.take(cs.len() as int) == cs);
}

/// The outline of the tree: one line per real node, in document order, each
/// indented two spaces per level below the first and reading `[id] title`.
pub fn get_tree_outline(tree: &DocumentTree) -> (r: String)
    ensures
        r@ == outline(tree.root@),
{
    let mut lines: Vec<Vec<char>> = Vec::new();
    outline_node(&tree.root, &mut lines);
    assert(char_views(lines@) == outline_lines(tree.root@));
    let mut out: Vec<char> = Vec::new();
    let mut i: usize = 0;
    while i < lines.len()
        invariant
            i <= lines@.len(),
            out@ == join_lines(char_views(lines@).take(i as int)),
        decreases lines.len() - i,
    {
        let ghost lv = char_views(lines@);
        assert(lv.take(i + 1).drop_last() == lv.take(i as int));
        if i > 0 {
            out.push('\n');
        }
        push_all(&mut out, lines[i].as_slice());
        i += 1;
    }
    assert(char_views(lines@).take(lines@.len() as int) == char_views(lines@));
    string_of(&out)
}

proof fn lemma_crumbs_len(root: NodeModel, ps: Seq<Seq<char>>)
    ensures
        crumbs(root, ps).len() <= ps.len(),
    decreases ps.len(),
{
    if ps.len() > 0 {
        lemma_crumbs_len(root, ps.drop_last());
    }
}

/// The breadcrumb of a node that exists ends with that node's own title, and
/// has at most one entry per dot-separated component of its id.
pub proof fn lemma_breadcrumb_ends_at_node(root: NodeModel, id: Seq<char>)
    requires
        find_in(root, id) is Some,
    ensures
        breadcrumb(root, id).len() >= 1,
        breadcrumb(root, id).last() == find_in(root, id)->0.title,
        breadcrumb(root, id).len() <= cuts(id).len() + 1,
{
    let ps = cuts(id).push(id);
    assert(ps.drop_last() == cuts(id));
    lemma_crumbs_len(root, cuts(id));
}

/// The outline line of a node of depth `d >= 1` starts with exactly
/// `2 * (d - 1)` spaces.
pub proof fn lemma_outline_indent(m: NodeModel)
    requires
        m.depth >= 1,
    ensures
        forall|i: int| 0 <= i < 2 * (m.depth - 1) ==> #[trigger] outline_line(m)[i] == ' ',
        outline_line(m)[2 * (m.depth - 1)] == '[',
{
    let n = indent(m.depth);
    assert(n == 2 * (m.depth - 1));
    let line = outline_line(m);
    assert forall|i: int| 0 <= i < n implies #[trigger] line[i] == ' ' by {
        assert(line[i] == repeat(' ', n)[i]);
    }
    assert(line[n as int] == '[');
}

proof fn lemma_digit_not_dot(n: nat)
    requires
        n < 10,
    ensures
        digit(n) != '.',
        n != 0 ==> digit(n) != '0',
{
}

proof fn lemma_decimal_no_dot(n: nat)
    ensures
        decimal(n).len() >= 1,
        forall|i: int| 0 <= i < decimal(n).len() ==> #[trigger] decimal(n)[i] != '.',
    decreases n,
{
    if n < 10 {
        lemma_digit_not_dot(n);
    } else {
        lemma_decimal_no_dot(n / 10);
        lemma_digit_not_dot(n % 10);
    }
}

proof fn lemma_cuts_no_dot(a: Seq<char>, t: Seq<char>)
    requires
        forall|i: int| 0 <= i < t.len() ==> #[trigger] t[i] != '.',
    ensures
        cuts(a + t) == cuts(a),
    decreases t.len(),
{
    if t.len() == 0 {
        assert(a + t == a);
    } else {
        assert((a + t).drop_last() == a + t.drop_last());
        assert((a + t).last() == t.last());
        lemma_cuts_no_dot(a, t.drop_last());
    }
}

/// The cuts of a dotted id are the dotted ids of its proper leading parts.
proof fn lemma_cuts_dotted(cs: Seq<nat>)
    requires
        cs.len() >= 1,
    ensures
        cuts(dotted(cs)) == Seq::new((cs.len() - 1) as nat, |j: int| dotted(cs.take(j + 1))),
    decreases cs.len(),
{
    if cs.len() == 1 {
        lemma_decimal_no_dot(cs[0]);
        lemma_cuts_no_dot(Seq::empty(), decimal(cs[0]));
        assert(Seq::<char>::empty() + decimal(cs[0]) == decimal(cs[0]));
        assert(cuts(Seq::<char>::empty()) == Seq::<Seq<char>>::empty());
        assert(cuts(dotted(cs)) =~= Seq::new((cs.len() - 1) as nat, |j: int| dotted(cs.take(j + 1))));
    } else {
        let a = dotted(cs.drop_last());
        lemma_cuts_dotted(cs.drop_last());
        lemma_decimal_no_dot(cs.last());
        lemma_cuts_no_dot(a.push('.'), decimal(cs.last()));
        assert(a + seq!['.'] == a.push('.'));
        assert(a.push('.').drop_last() == a);
        assert(cs.take(cs.len() - 1) == cs.drop_last());
        assert forall|j: int| 0 <= j < cs.len() - 2 implies #[trigger] cs.drop_last().take(j + 1) == cs.take(j + 1) by {
            assert(cs.drop_last().take(j + 1) =~= cs.take(j + 1));
        }
        assert(cuts(dotted(cs)) =~= Seq::new((cs.len() - 1) as nat, |j: int| dotted(cs.take(j + 1))));
    }
}

pub open spec fn id_list(s: Seq<NodeModel>) -> Seq<Seq<char>> {
    s.map_values(|m: NodeModel| m.node_id)
}

proof fn lemma_ids_all_append(a: Seq<NodeModel>, b: Seq<NodeModel>)
    ensures
        ids_all(a + b) == ids_all(a) + ids_all(b),
    decreases b.len(),
{
    if b.len() > 0 {
        lemma_ids_all_append(a, b.drop_last());
        assert((a + b).drop_last() == a + b.drop_last());
        assert((a + b).last() == b.last());
    } else {
        assert(a + b == a);
        assert(ids_all(a) + ids_all(b) == ids_all(a));
    }
}

/// The preorder of a forest lists the ids of the nodes it was built from, in order.
proof fn lemma_forest_ids(s: Seq<NodeModel>)
    ensures
        ids_all(forest(s)) == id_list(s),
    decreases s.len(),
{
    if s.len() == 0 {
        assert(id_list(s) =~= Seq::<Seq<char>>::empty());
    } else {
        let rest = s.drop_first();
        let k = span(rest, s[0].depth);
        lemma_span_bound(rest, s[0].depth);
        lemma_forest_ids(rest.take(k as int));
        lemma_forest_ids(rest.skip(k as int));
        let n = with_children(s[0], forest(rest.take(k as int)));
        lemma_ids_all_append(seq![n], forest(rest.skip(k as int)));
        lemma_ids_all_single(n);
        assert(id_list(s) =~= seq![s[0].node_id] + id_list(rest.take(k as int)) + id_list(
            rest.skip(k as int),
        ));
    }
}

proof fn lemma_find_ids(m: NodeModel)
    ensures
        forall|i: int| 0 <= i < ids(m).len() ==> (#[trigger] find_in(m, ids(m)[i])) is Some,
    decreases m,
{
    lemma_find_ids_all(m.children);
    assert forall|i: int| 0 <= i < ids(m).len() implies (#[trigger] find_in(m, ids(m)[i])) is Some by {
        if i > 0 {
            assert(ids(m)[i] == ids_all(m.children)[i - 1]);
            assert(find_all(m.children, ids_all(m.children)[i - 1]) is Some);
        }
    }
}

proof fn lemma_find_ids_all(s: Seq<NodeModel>)
    ensures
        forall|i: int| 0 <= i < ids_all(s).len() ==> (#[trigger] find_all(s, ids_all(s)[i])) is Some,
    decreases s,
{
    if s.len() > 0 {
        lemma_find_ids_all(s.drop_last());
        lemma_find_ids(s.last());
        let a = ids_all(s.drop_last());
        assert forall|i: int| 0 <= i < ids_all(s).len() implies (#[trigger] find_all(s, ids_all(s)[i])) is Some by {
            if i < a.len() {
                assert(ids_all(s)[i] == a[i]);
                assert(find_all(s.drop_last(), a[i]) is Some);
            } else {
                assert(ids_all(s)[i] == ids(s.last())[i - a.len()]);
                assert(find_in(s.last(), ids(s.last())[i - a.len()]) is Some);
            }
        }
    }
}

/// Every node keeps depth one more than the number of dots in its id, except
/// an aggregator.
pub open spec fn depth_ok(m: NodeModel) -> bool {
    m.node_id == aggregator_id() || m.depth == cuts(m.node_id).len() + 1
}

pub open spec fn all_ok(m: NodeModel) -> bool
    decreases m,
{
    depth_ok(m) && all_ok_seq(m.children)
}

pub open spec fn all_ok_seq(s: Seq<NodeModel>) -> bool
    decreases s,
{
    s.len() > 0 ==> all_ok_seq(s.drop_last()) && all_ok(s.last())
}

proof fn lemma_find_ok(m: NodeModel, p: Seq<char>)
    requires
        all_ok(m),
        find_in(m, p) is Some,
    ensures
        depth_ok(find_in(m, p)->0),
        find_in(m, p)->0.node_id == p,
    decreases m,
{
    if m.node_id != p {
        lemma_find_ok_seq(m.children, p);
    }
}

proof fn lemma_find_ok_seq(s: Seq<NodeModel>, p: Seq<char>)
    requires
        all_ok_seq(s),
        find_all(s, p) is Some,
    ensures
        depth_ok(find_all(s, p)->0),
        find_all(s, p)->0.node_id == p,
    decreases s,
{
    if s.len() > 0 {
        if find_all(s.drop_last(), p) is Some {
            lemma_find_ok_seq(s.drop_last(), p);
        } else {
            lemma_find_ok(s.last(), p);
        }
    }
}

proof fn lemma_all_ok_concat(a: Seq<NodeModel>, b: Seq<NodeModel>)
    requires
        all_ok_seq(a),
        all_ok_seq(b),
    ensures
        all_ok_seq(a + b),
    decreases b.len(),
{
    if b.len() > 0 {
        lemma_all_ok_concat(a, b.drop_last());
        assert((a + b).drop_last() == a + b.drop_last());
    } else {
        assert(a + b == a);
    }
}

proof fn lemma_forest_ok(s: Seq<NodeModel>)
    requires
        forall|i: int| 0 <= i < s.len() ==> #[trigger] depth_ok(s[i]),
    ensures
        all_ok_seq(forest(s)),
    decreases s.len(),
{
    if s.len() > 0 {
        let rest = s.drop_first();
        let k = span(rest, s[0].depth);
        lemma_span_bound(rest, s[0].depth);
        assert forall|i: int| 0 <= i < rest.take(k as int).len() implies #[trigger] depth_ok(rest.take(k as int)[i]) by {
            assert(rest.take(k as int)[i] == s[i + 1]);
        }
        assert forall|i: int| 0 <= i < rest.skip(k as int).len() implies #[trigger] depth_ok(rest.skip(k as int)[i]) by {
            assert(rest.skip(k as int)[i] == s[i + 1 + k]);
        }
        lemma_forest_ok(rest.take(k as int));
        lemma_forest_ok(rest.skip(k as int));
        let n = with_children(s[0], forest(rest.take(k as int)));
        assert(depth_ok(s[0]));
        assert(all_ok(n));
        assert(seq![n].drop_last() == Seq::<NodeModel>::empty());
        assert(seq![n].last() == n);
        assert(all_ok_seq(Seq::<NodeModel>::empty()));
        assert(all_ok_seq(seq![n]));
        lemma_all_ok_concat(seq![n], forest(rest.skip(k as int)));
    }
}

/// The prefix counters of the headings with depths `ds`: those of depths `1..=j`.
pub open spec fn lead(ds: Seq<nat>, j: nat) -> Seq<nat> {
    Seq::new(j, |t: int| counter(ds, (t + 1) as nat))
}

proof fn lemma_counter_stable(ds: Seq<nat>, k: int, i: int, j: nat)
    requires
        0 <= k <= i < ds.len(),
        forall|t: int| k < t <= i ==> #[trigger] ds[t] > j,
    ensures
        forall|r: nat| r <= j ==> #[trigger] counter(ds.take(i + 1), r) == counter(ds.take(k + 1), r),
    decreases i - k,
{
    if i > k {
        lemma_counter_stable(ds, k, i - 1, j);
        assert(ds.take(i + 1).drop_last() == ds.take(i));
        assert(ds.take(i + 1).last() == ds[i]);
        assert forall|r: nat| r <= j implies #[trigger] counter(ds.take(i + 1), r) == counter(
            ds.take(k + 1),
            r,
        ) by {
            assert(counter(ds.take(i + 1), r) == counter(ds.take(i), r));
            assert(counter(ds.take((i - 1) + 1), r) == counter(ds.take(k + 1), r));
        }
    }
}

/// The nearest heading at or before the `i`-th with depth exactly `j`; every
/// heading after it up to the `i`-th is deeper.
proof fn lemma_anchor(ds: Seq<nat>, i: int, j: nat) -> (k: int)
    requires
        0 <= i < ds.len(),
        ds[0] == 1,
        forall|t: int| 0 < t < ds.len() ==> #[trigger] ds[t] <= ds[t - 1] + 1,
        1 <= j <= ds[i],
    ensures
        0 <= k <= i,
        ds[k] == j,
        forall|t: int| k < t <= i ==> #[trigger] ds[t] > j,
    decreases i,
{
    if ds[i] == j {
        i
    } else {
        assert(i > 0);
        assert(ds[i] <= ds[i - 1] + 1);
        let k = lemma_anchor(ds, i - 1, j);
        k
    }
}

proof fn lemma_leaf_shape(bs: Seq<BlockModel>, i: int)
    requires
        0 <= i < bs.len(),
        bs[i].depth >= 1,
    ensures
        leaf(bs, i).node_id == dotted(lead(depths(bs.take(i + 1)), bs[i].depth)),
        depth_ok(leaf(bs, i)),
        leaf(bs, i).node_id != aggregator_id(),
{
    let ds = depths(bs.take(i + 1));
    let d = bs[i].depth;
    assert(ds.last() == d);
    let cs = lead(ds, d);
    assert(id_after(ds) == dotted(cs));
    lemma_cuts_dotted(cs);
    assert(ds.drop_last() == depths(bs.take(i)));
    assert(counter(ds, d) >= 1);
    assert(aggregator_id().len() == 1);
    if d == 1 {
        assert(dotted(cs) == decimal(cs[0]));
        let c = cs[0];
        if c < 10 {
            lemma_digit_not_dot(c);
            assert(dotted(cs)[0] != aggregator_id()[0]);
        } else {
            lemma_decimal_no_dot(c / 10);
        }
    } else {
        lemma_decimal_no_dot(cs.last());
    }
}

/// Where the first heading has depth 1 and no heading is more than one level
/// deeper than the one before it, every section's breadcrumb holds one title
/// per level: its length is the section's depth.
pub proof fn lemma_breadcrumb_length(text: Seq<char>, i: int)
    requires
        0 <= i < blocks(text).len(),
        blocks(text)[0].depth == 1,
        forall|t: int| 0 < t < blocks(text).len() ==> #[trigger] blocks(text)[t].depth <= blocks(text)[t - 1].depth + 1,
    ensures
        find_in(root_of(text), leaf(blocks(text), i).node_id) is Some,
        breadcrumb(root_of(text), leaf(blocks(text), i).node_id).len() == find_in(
            root_of(text),
            leaf(blocks(text), i).node_id,
        )->0.depth,
{
    let bs = blocks(text);
    let ls = leaves(bs);
    let root = root_of(text);
    let f = forest(ls);
    lemma_seg_depths(text);
    let all = depths(bs);
    assert forall|t: int| 0 <= t < ls.len() implies #[trigger] depth_ok(ls[t]) by {
        lemma_leaf_shape(bs, t);
    }
    lemma_forest_ok(ls);
    lemma_forest_ids(ls);
    // every heading's id is found in the tree
    assert forall|t: int| 0 <= t < ls.len() implies (#[trigger] find_in(root, ls[t].node_id)) is Some by {
        assert(ids_all(f)[t] == ls[t].node_id);
        lemma_find_ids_all(f);
        if f.len() == 1 {
            assert(f == seq![f[0]]);
            lemma_ids_all_single(f[0]);
            lemma_find_ids(f[0]);
            assert(ids(f[0])[t] == ls[t].node_id);
        } else {
            assert(ids(root)[t + 1] == ls[t].node_id);
            lemma_find_ids(root);
        }
    }
    // the tree keeps depth and id in step
    if f.len() == 1 {
        assert(f.drop_last() == Seq::<NodeModel>::empty());
        assert(all_ok(f[0]));
    }
    let x = ls[i].node_id;
    lemma_leaf_shape(bs, i);
    let d = bs[i].depth;
    let dsi = depths(bs.take(i + 1));
    let cs = lead(dsi, d);
    lemma_cuts_dotted(cs);
    assert(find_in(root, x) is Some);
    if f.len() != 1 {
        assert(x != root.node_id);
        lemma_find_ok_seq(f, x);
    } else {
        lemma_find_ok(f[0], x);
    }
    // every proper prefix of the id is the id of an earlier heading
    let ps = cuts(x);
    assert forall|j: int| 0 <= j < ps.len() implies (#[trigger] find_in(root, ps[j])) is Some by {
        assert(all.len() == bs.len());
        assert forall|t: int| 0 < t < all.len() implies #[trigger] all[t] <= all[t - 1] + 1 by {
            assert(all[t] == bs[t].depth);
        }
        let k = lemma_anchor(all, i, (j + 1) as nat);
        lemma_counter_stable(all, k, i, (j + 1) as nat);
        assert(all.take(i + 1) == dsi);
        lemma_leaf_shape(bs, k);
        assert(all.take(k + 1) == depths(bs.take(k + 1)));
        assert(cs.take(j + 1) =~= lead(depths(bs.take(k + 1)), bs[k].depth));
        assert(ps[j] == ls[k].node_id);
    }
    lemma_crumbs_all_found(root, ps.push(x));
}

proof fn lemma_crumbs_all_found(root: NodeModel, ps: Seq<Seq<char>>)
    requires
        forall|j: int| 0 <= j < ps.len() ==> (#[trigger] find_in(root, ps[j])) is Some,
    ensures
        crumbs(root, ps).len() == ps.len(),
    decreases ps.len(),
{
    if ps.len() > 0 {
        assert forall|j: int| 0 <= j < ps.drop_last().len() implies (#[trigger] find_in(root, ps.drop_last()[j])) is Some by {
            assert(ps.drop_last()[j] == ps[j]);
        }
        lemma_crumbs_all_found(root, ps.drop_last());
        assert(find_in(root, ps.last()) is Some);
    }
}

} // verus!
