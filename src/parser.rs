//! Turns heading-structured text into a `DocumentTree`.
use vstd::prelude::*;
use crate::text::{
    chars_of, decimal, digit, lines, push_all, push_decimal, split_lines, string_of,
    trim, trimmed,
};
use crate::tree::{
    aggregator_id, ids, ids_all, lemma_views, tree_ids, views, DocumentTree, Node, NodeModel,
};

verus! {

broadcast use vstd::std_specs::vec::group_vec_axioms;

/// The number of `#` characters that `line` starts with.
pub open spec fn hashes(line: Seq<char>) -> nat
    decreases line.len(),
{
    if line.len() > 0 && line[0] == '#' {
        1 + hashes(line.drop_first())
    } else {
        0
    }
}

/// The depth and title of a heading line, or `None` for a body line.
pub open spec fn heading(line: Seq<char>) -> Option<(nat, Seq<char>)> {
    if line.len() > 0 && line[0] == '#' {
        let d = hashes(line);
        let t = trim(line.skip(d as int));
        if t.len() > 0 {
            Some((d, t))
        } else {
            None
        }
    } else {
        None
    }
}

/// One section of the text before nesting: its heading's depth and title,
/// and its trimmed body.
pub struct BlockModel {
    pub depth: nat,
    pub title: Seq<char>,
    pub body: Seq<char>,
}

/// What segmentation knows after a prefix of the lines: the closed sections,
/// the open one (depth and title) if any, and the body read for it so far.
pub struct SegState {
    pub blocks: Seq<BlockModel>,
    pub open: Option<(nat, Seq<char>)>,
    pub body: Seq<char>,
    pub has_line: bool,
}

pub open spec fn close(st: SegState) -> Seq<BlockModel> {
    match st.open {
        Some((d, t)) => st.blocks.push(BlockModel { depth: d, title: t, body: trim(st.body) }),
        None => st.blocks,
    }
}

pub open spec fn seg_step(st: SegState, line: Seq<char>) -> SegState {
    match heading(line) {
        Some((d, t)) => SegState {
            blocks: close(st),
            open: Some((d, t)),
            body: Seq::empty(),
            has_line: false,
        },
        None => if st.open is Some {
            SegState {
                body: if st.has_line {
                    st.body + seq!['\n'] + line
                } else {
                    line
                },
                has_line: true,
                ..st
            }
        } else {
            st
        },
    }
}

pub open spec fn seg(ls: Seq<Seq<char>>) -> SegState
    decreases ls.len(),
{
    if ls.len() == 0 {
        SegState { blocks: Seq::empty(), open: None, body: Seq::empty(), has_line: false }
    } else {
        seg_step(seg(ls.drop_last()), ls.last())
    }
}

/// The sections of `text`, in document order; lines before the first
/// heading belong to none.
pub open spec fn blocks(text: Seq<char>) -> Seq<BlockModel> {
    close(seg(lines(text)))
}

/// The document title: the first heading's title when it has depth 1, else
/// the document id.
pub open spec fn doc_title(doc_id: Seq<char>, bs: Seq<BlockModel>) -> Seq<char> {
    if bs.len() > 0 && bs[0].depth == 1 {
        bs[0].title
    } else {
        doc_id
    }
}

/// The counter of depth `d` after the headings of depths `ds`: each heading
/// adds one at its own depth and clears every deeper one.
pub open spec fn counter(ds: Seq<nat>, d: nat) -> nat
    decreases ds.len(),
{
    if ds.len() == 0 {
        0
    } else if d == ds.last() {
        counter(ds.drop_last(), d) + 1
    } else if d > ds.last() {
        0
    } else {
        counter(ds.drop_last(), d)
    }
}

/// The decimal numerals of `cs`, joined with `.`.
pub open spec fn dotted(cs: Seq<nat>) -> Seq<char>
    decreases cs.len(),
{
    if cs.len() == 0 {
        Seq::empty()
    } else if cs.len() == 1 {
        decimal(cs[0])
    } else {
        dotted(cs.drop_last()) + seq!['.'] + decimal(cs.last())
    }
}

pub open spec fn depths(bs: Seq<BlockModel>) -> Seq<nat> {
    bs.map_values(|b: BlockModel| b.depth)
}

/// The id of the last of the headings of depths `ds`: the counters of
/// depths `1..=d` joined with `.`, where `d` is its depth.
pub open spec fn id_after(ds: Seq<nat>) -> Seq<char> {
    dotted(Seq::new(ds.last(), |k: int| counter(ds, (k + 1) as nat)))
}

/// The childless node for the `i`-th section.
pub open spec fn leaf(bs: Seq<BlockModel>, i: int) -> NodeModel {
    NodeModel {
        node_id: id_after(depths(bs.take(i + 1))),
        title: bs[i].title,
        depth: bs[i].depth,
        text: bs[i].body,
        summary: None,
        children: Seq::empty(),
    }
}

pub open spec fn leaves(bs: Seq<BlockModel>) -> Seq<NodeModel> {
    Seq::new(bs.len(), |i: int| leaf(bs, i))
}

/// How many nodes at the front of `s` are deeper than `d`.
pub open spec fn span(s: Seq<NodeModel>, d: nat) -> nat
    decreases s.len(),
{
    if s.len() > 0 && s[0].depth > d {
        1 + span(s.drop_first(), d)
    } else {
        0
    }
}

pub open spec fn with_children(m: NodeModel, cs: Seq<NodeModel>) -> NodeModel {
    NodeModel {
        node_id: m.node_id,
        title: m.title,
        depth: m.depth,
        text: m.text,
        summary: None,
        children: cs,
    }
}

/// The top-level nodes built from nodes in document order: each node takes
/// as its descendants the deeper nodes that directly follow it.
pub open spec fn forest(s: Seq<NodeModel>) -> Seq<NodeModel>
    decreases s.len() via forest_decreases
{
    if s.len() == 0 {
        Seq::empty()
    } else {
        let rest = s.drop_first();
        let k = span(rest, s[0].depth);
        seq![with_children(s[0], forest(rest.take(k as int)))] + forest(rest.skip(k as int))
    }
}

#[via_fn]
proof fn forest_decreases(s: Seq<NodeModel>) {
    if s.len() > 0 {
        lemma_span_bound(s.drop_first(), s[0].depth);
    }
}

pub proof fn lemma_span_bound(s: Seq<NodeModel>, d: nat)
    ensures
        span(s, d) <= s.len(),
    decreases s.len(),
{
    if s.len() > 0 && s[0].depth > d {
        lemma_span_bound(s.drop_first(), d);
    }
}

/// The root: the single top-level node, or else an aggregator over all of them.
pub open spec fn assemble(f: Seq<NodeModel>) -> NodeModel {
    if f.len() == 1 {
        f[0]
    } else {
        NodeModel {
            node_id: aggregator_id(),
            title: Seq::empty(),
            depth: 0,
            text: Seq::empty(),
            summary: None,
            children: f,
        }
    }
}

/// The root of the tree for `text`.
pub open spec fn root_of(text: Seq<char>) -> NodeModel {
    assemble(forest(leaves(blocks(text))))
}

/// A section of the text before nesting.
struct Block {
    depth: usize,
    title: Vec<char>,
    body: Vec<char>,
}

impl View for Block {
    type V = BlockModel;

    closed spec fn view(&self) -> BlockModel {
        BlockModel { depth: self.depth as nat, title: self.title@, body: self.body@ }
    }
}

spec fn block_views(bs: Seq<Block>) -> Seq<BlockModel> {
    bs.map_values(|b: Block| b@)
}

spec fn line_views(ls: Seq<Vec<char>>) -> Seq<Seq<char>> {
    ls.map_values(|l: Vec<char>| l@)
}

/// The depth and title of a heading line.
fn parse_heading(line: &[char]) -> (r: Option<(usize, Vec<char>)>)
    ensures
        match r {
            Some((d, t)) => heading(line@) == Some((d as nat, t@)) && d < line@.len() && d < usize::MAX,
            None => heading(line@) is None,
        },
{
    if line.len() == 0 || line[0] != '#' {
        return None;
    }
    let mut i: usize = 0;
    assert(line@.skip(0) == line@);
    while i < line.len() && line[i] == '#'
        invariant
            i <= line.len(),
            hashes(line@) == i + hashes(line@.skip(i as int)),
        decreases line.len() - i,
    {
        assert(line@.skip(i as int).drop_first() == line@.skip(i + 1));
        i += 1;
    }
    let mut rest: Vec<char> = Vec::new();
    let mut j: usize = i;
    while j < line.len()
        invariant
            i <= j <= line.len(),
            rest@ == line@.subrange(i as int, j as int),
        decreases line.len() - j,
    {
        rest.push(line[j]);
        j += 1;
        assert(line@.subrange(i as int, j as int) == line@.subrange(i as int, j - 1).push(line@[j - 1]));
    }
    assert(rest@ == line@.skip(i as int));
    let title = trimmed(&rest);
    if title.len() == 0 {
        return None;
    }
    let n = line.len();
    proof {
        if i >= n {
            assert(rest@.len() == 0);
        }
    }
    Some((i, title))
}

/// Splits the lines into sections at heading lines.
fn segment(ls: &Vec<Vec<char>>) -> (r: Vec<Block>)
    ensures
        block_views(r@) == close(seg(line_views(ls@))),
        forall|j: int| 0 <= j < r@.len() ==> #[trigger] r@[j].depth < usize::MAX,
{
    let ghost lv = line_views(ls@);
    let mut out: Vec<Block> = Vec::new();
    let mut open = false;
    let mut depth: usize = 0;
    let mut title: Vec<char> = Vec::new();
    let mut body: Vec<char> = Vec::new();
    let mut has_line = false;
    let mut i: usize = 0;
    while i < ls.len()
        invariant
            i <= ls.len(),
            lv == line_views(ls@),
            block_views(out@) == seg(lv.take(i as int)).blocks,
            open ==> seg(lv.take(i as int)).open == Some((depth as nat, title@)),
            !open ==> seg(lv.take(i as int)).open is None,
            body@ == seg(lv.take(i as int)).body,
            has_line == seg(lv.take(i as int)).has_line,
            !has_line ==> body@.len() == 0,
            depth < usize::MAX,
            forall|j: int| 0 <= j < out@.len() ==> #[trigger] out@[j].depth < usize::MAX,
        decreases ls.len() - i,
    {
        assert(lv.take(i + 1).drop_last() == lv.take(i as int));
        assert(lv[i as int] == ls@[i as int]@);
        let line = ls[i].as_slice();
        match parse_heading(line) {
            Some((d, t)) => {
                if open {
                    let b = Block { depth, title, body: trimmed(&body) };
                    let ghost before = out@;
                    out.push(b);
                    assert(block_views(out@) == block_views(before).push(b@));
                }
                open = true;
                depth = d;
                title = t;
                body = Vec::new();
                has_line = false;
            },
            None => {
                if open {
                    let ghost b0 = body@;
                    if has_line {
                        body.push('\n');
                    }
                    push_all(&mut body, line);
                    assert(has_line ==> body@ == b0 + seq!['\n'] + line@);
                    assert(!has_line ==> body@ == line@);
                    has_line = true;
                }
            },
        }
        i += 1;
    }
    assert(lv.take(ls.len() as int) == lv);
    if open {
        let b = Block { depth, title, body: trimmed(&body) };
        let ghost before = out@;
        out.push(b);
        assert(block_views(out@) == block_views(before).push(b@));
    }
    out
}

pub proof fn lemma_counter_bound(ds: Seq<nat>, d: nat)
    ensures
        counter(ds, d) <= ds.len(),
    decreases ds.len(),
{
    if ds.len() > 0 {
        lemma_counter_bound(ds.drop_last(), d);
    }
}

/// The counters of depths `1..=d`, joined with `.`.
fn format_id(counters: &Vec<usize>, d: usize) -> (r: Vec<char>)
    requires
        d < counters.len(),
    ensures
        r@ == dotted(Seq::new(d as nat, |k: int| counters@[k + 1] as nat)),
{
    let ghost f = |k: int| counters@[k + 1] as nat;
    let mut out: Vec<char> = Vec::new();
    let mut k: usize = 1;
    assert(Seq::new(0, f) == Seq::<nat>::empty());
    while k <= d
        invariant
            1 <= k <= d + 1,
            d < counters.len(),
            f == (|k: int| counters@[k + 1] as nat),
            out@ == dotted(Seq::new((k - 1) as nat, f)),
        decreases d + 1 - k,
    {
        assert(Seq::new(k as nat, f).drop_last() == Seq::new((k - 1) as nat, f));
        if k > 1 {
            out.push('.');
        }
        push_decimal(&mut out, counters[k]);
        k += 1;
    }
    out
}

/// The childless nodes of the sections, each with its id. Depth is not
/// bounded: the counters grow with the deepest heading seen.
fn make_leaves(bs: &Vec<Block>) -> (r: Vec<Node>)
    requires
        forall|j: int| 0 <= j < bs@.len() ==> #[trigger] bs@[j].depth < usize::MAX,
    ensures
        views(r@) == leaves(block_views(bs@)),
{
    let ghost bv = block_views(bs@);
    let mut counters: Vec<usize> = Vec::new();
    counters.push(0);
    let mut out: Vec<Node> = Vec::new();
    let mut i: usize = 0;
    while i < bs.len()
        invariant
            i <= bs.len(),
            bv == block_views(bs@),
            forall|j: int| 0 <= j < bs@.len() ==> #[trigger] bs@[j].depth < usize::MAX,
            views(out@) == leaves(bv).take(i as int),
            forall|k: nat| k < counters@.len() ==> #[trigger] counters@[k as int] == counter(
                depths(bv.take(i as int)),
                k,
            ),
            forall|k: nat| k >= counters@.len() ==> #[trigger] counter(depths(bv.take(i as int)), k) == 0,
        decreases bs.len() - i,
    {
        let ghost ds = depths(bv.take(i as int));
        let ghost ds1 = depths(bv.take(i + 1));
        assert(ds1 == ds.push(bv[i as int].depth));
        assert(ds1.drop_last() == ds);
        let d = bs[i].depth;
        assert(bv[i as int].depth == d);
        while counters.len() <= d
            invariant
                d < usize::MAX,
                forall|k: nat| k < counters@.len() ==> #[trigger] counters@[k as int] == counter(ds, k),
                forall|k: nat| k >= counters@.len() ==> #[trigger] counter(ds, k) == 0,
            decreases d + 1 - counters.len(),
        {
            counters.push(0);
        }
        proof {
            lemma_counter_bound(ds, d as nat);
        }
        let c = counters[d];
        counters.set(d, c + 1);
        let mut j: usize = d + 1;
        while j < counters.len()
            invariant
                d < j,
                d < counters.len(),
                counters@[d as int] == counter(ds1, d as nat),
                forall|k: nat| k < d ==> #[trigger] counters@[k as int] == counter(ds1, k),
                forall|k: nat| d < k < j && k < counters@.len() ==> #[trigger] counters@[k as int] == 0,
                forall|k: nat| j <= k < counters@.len() ==> #[trigger] counters@[k as int] == counter(ds, k),
                forall|k: nat| k >= counters@.len() ==> #[trigger] counter(ds, k) == 0,
            decreases counters.len() - j,
        {
            counters.set(j, 0);
            j += 1;
        }
        assert forall|k: nat| k < counters@.len() implies #[trigger] counters@[k as int] == counter(ds1, k) by {
            if k > d {
                assert(counter(ds1, k) == 0);
            }
        }
        assert forall|k: nat| k >= counters@.len() implies #[trigger] counter(ds1, k) == 0 by {
            assert(counter(ds, k) == 0);
        }
        let id = format_id(&counters, d);
        assert(Seq::new(d as nat, |k: int| counters@[k + 1] as nat) =~= Seq::new(
            ds1.last(),
            |k: int| counter(ds1, (k + 1) as nat),
        ));
        let node = Node::new(string_of(&id), string_of(&bs[i].title), d, string_of(&bs[i].body));
        let ghost before = out@;
        out.push(node);
        proof {
            lemma_views(before);
            lemma_views(out@);
            assert(views(out@) =~= leaves(bv).take(i + 1));
        }
        i += 1;
    }
    assert(leaves(bv).take(bs.len() as int) == leaves(bv));
    out
}

/// The nodes in `items[lo..hi]` nested into a forest: each node takes as
/// children the deeper nodes that directly follow it.
fn build_forest(items: &Vec<Node>, lo: usize, hi: usize) -> (r: Vec<Node>)
    requires
        lo <= hi <= items@.len(),
    ensures
        views(r@) == forest(views(items@).subrange(lo as int, hi as int)),
    decreases hi - lo,
{
    let ghost m = views(items@);
    proof {
        lemma_views(items@);
    }
    let mut out: Vec<Node> = Vec::new();
    let mut i: usize = lo;
    while i < hi
        invariant
            lo <= i <= hi <= items@.len(),
            m == views(items@),
            m.len() == items@.len(),
            forall|j: int| 0 <= j < items@.len() ==> #[trigger] m[j] == items@[j]@,
            views(out@) + forest(m.subrange(i as int, hi as int)) == forest(
                m.subrange(lo as int, hi as int),
            ),
        decreases hi - i,
    {
        let d = items[i].depth;
        let mut k: usize = i + 1;
        while k < hi && items[k].depth > d
            invariant
                i < k <= hi,
                hi <= items@.len(),
                m == views(items@),
                m.len() == items@.len(),
                forall|j: int| 0 <= j < items@.len() ==> #[trigger] m[j] == items@[j]@,
                d as nat == m[i as int].depth,
                span(m.subrange(i + 1, hi as int), d as nat) == (k - i - 1) + span(
                    m.subrange(k as int, hi as int),
                    d as nat,
                ),
            decreases hi - k,
        {
            assert(m.subrange(k as int, hi as int).drop_first() == m.subrange(k + 1, hi as int));
            k += 1;
        }
        let children = build_forest(items, i + 1, k);
        let node = Node {
            node_id: items[i].node_id.clone(),
            title: items[i].title.clone(),
            depth: d,
            text: items[i].text.clone(),
            summary: None,
            children,
        };
        proof {
            let s = m.subrange(i as int, hi as int);
            let rest = s.drop_first();
            assert(rest == m.subrange(i + 1, hi as int));
            let kk = (k - i - 1) as int;
            assert(span(rest, s[0].depth) == kk);
            assert(rest.take(kk) == m.subrange(i + 1, k as int));
            assert(rest.skip(kk) == m.subrange(k as int, hi as int));
            assert(node@ == with_children(m[i as int], views(children@)));
            assert(forest(s) == seq![node@] + forest(m.subrange(k as int, hi as int)));
        }
        let ghost before = out@;
        out.push(node);
        assert(out@.drop_last() == before);
        assert(views(out@) == views(before).push(node@));
        assert(views(out@) + forest(m.subrange(k as int, hi as int)) == views(before) + (seq![node@]
            + forest(m.subrange(k as int, hi as int))));
        i = k;
    }
    out
}

/// The root of the tree over the sections `bs`.
fn build_tree(bs: &Vec<Block>) -> (r: Node)
    requires
        forall|j: int| 0 <= j < bs@.len() ==> #[trigger] bs@[j].depth < usize::MAX,
    ensures
        r@ == assemble(forest(leaves(block_views(bs@)))),
{
    let items = make_leaves(bs);
    let mut top = build_forest(&items, 0, items.len());
    proof {
        lemma_views(items@);
    }
    assert(views(items@).subrange(0, items@.len() as int) == views(items@));
    proof {
        lemma_views(top@);
    }
    if top.len() == 1 {
        let ghost t0 = top@;
        let n = top.remove(0);
        assert(n == t0[0]);
        n
    } else {
        let id = "0".to_owned();
        proof {
            reveal_strlit("0");
            assert(id@ == aggregator_id());
        }
        Node { node_id: id, title: String::new(), depth: 0, text: String::new(), summary: None, children: top }
    }
}

/// Parses heading-structured text into a document tree.
pub fn parse_markdown(doc_id: &str, markdown: &str) -> (r: DocumentTree)
    ensures
        r.doc_id@ == doc_id@,
        r.title@ == doc_title(doc_id@, blocks(markdown@)),
        r.description is None,
        r.root@ == root_of(markdown@),
{
    let chars = chars_of(markdown);
    let ls = split_lines(&chars);
    assert(line_views(ls@) =~= lines(markdown@));
    let bs = segment(&ls);
    let title = if bs.len() > 0 && bs[0].depth == 1 {
        string_of(&bs[0].title)
    } else {
        doc_id.to_owned()
    };
    let root = build_tree(&bs);
    DocumentTree::new(doc_id.to_owned(), title, root)
}

/// The number of heading lines among `ls`.
pub open spec fn count_headings(ls: Seq<Seq<char>>) -> nat
    decreases ls.len(),
{
    if ls.len() == 0 {
        0
    } else if heading(ls.last()) is Some {
        count_headings(ls.drop_last()) + 1
    } else {
        count_headings(ls.drop_last())
    }
}

/// The number of heading lines in `text`.
pub open spec fn heading_count(text: Seq<char>) -> nat {
    count_headings(lines(text))
}

/// Whether the `i`-th section is top-level: no section before it is shallower.
pub open spec fn top_level(bs: Seq<BlockModel>, i: int) -> bool {
    forall|j: int| 0 <= j < i ==> #[trigger] bs[j].depth >= bs[i].depth
}

proof fn lemma_seg(ls: Seq<Seq<char>>)
    ensures
        close(seg(ls)).len() == count_headings(ls),
        close(seg(ls)).len() == seg(ls).blocks.len() + if seg(ls).open is Some { 1int } else { 0 },
        match seg(ls).open {
            Some((d, _)) => d >= 1,
            None => true,
        },
        forall|i: int| 0 <= i < close(seg(ls)).len() ==> #[trigger] close(seg(ls))[i].depth >= 1,
    decreases ls.len(),
{
    if ls.len() > 0 {
        lemma_seg(ls.drop_last());
        let st = seg(ls.drop_last());
        let l = ls.last();
        if l.len() > 0 && l[0] == '#' {
            assert(hashes(l) >= 1);
        }
        let c = close(seg(ls));
        match heading(l) {
            Some((d, t)) => {
                assert forall|i: int| 0 <= i < c.len() implies #[trigger] c[i].depth >= 1 by {
                    if i < close(st).len() {
                        assert(c[i] == close(st)[i]);
                    }
                }
            },
            None => {
                if st.open is Some {
                    assert forall|i: int| 0 <= i < c.len() implies #[trigger] c[i].depth >= 1 by {
                        if i < st.blocks.len() {
                            assert(c[i] == st.blocks[i]);
                            assert(close(st)[i] == st.blocks[i]);
                        }
                    }
                }
            },
        }
    }
}

proof fn lemma_ids_all_concat(a: Seq<NodeModel>, b: Seq<NodeModel>)
    ensures
        ids_all(a + b).len() == ids_all(a).len() + ids_all(b).len(),
    decreases b.len(),
{
    if b.len() > 0 {
        lemma_ids_all_concat(a, b.drop_last());
        assert((a + b).drop_last() == a + b.drop_last());
    } else {
        assert(a + b == a);
    }
}

pub proof fn lemma_ids_all_single(n: NodeModel)
    ensures
        ids_all(seq![n]) == ids(n),
{
    assert(seq![n].drop_last() == Seq::<NodeModel>::empty());
    assert(ids_all(Seq::<NodeModel>::empty()) == Seq::<Seq<char>>::empty());
    assert(Seq::<Seq<char>>::empty() + ids(n) == ids(n));
}

proof fn lemma_forest_size(s: Seq<NodeModel>)
    ensures
        ids_all(forest(s)).len() == s.len(),
    decreases s.len(),
{
    if s.len() > 0 {
        let rest = s.drop_first();
        let k = span(rest, s[0].depth);
        lemma_span_bound(rest, s[0].depth);
        lemma_forest_size(rest.take(k as int));
        lemma_forest_size(rest.skip(k as int));
        let n = with_children(s[0], forest(rest.take(k as int)));
        lemma_ids_all_single(n);
        lemma_ids_all_concat(seq![n], forest(rest.skip(k as int)));
    }
}

proof fn lemma_span_all(s: Seq<NodeModel>, d: nat)
    requires
        forall|i: int| 0 <= i < s.len() ==> #[trigger] s[i].depth > d,
    ensures
        span(s, d) == s.len(),
    decreases s.len(),
{
    if s.len() > 0 {
        lemma_span_all(s.drop_first(), d);
    }
}

proof fn lemma_span_stop(s: Seq<NodeModel>, d: nat, j: int)
    requires
        0 <= j < s.len(),
        s[j].depth <= d,
    ensures
        span(s, d) <= j,
    decreases s.len(),
{
    if j > 0 && s[0].depth > d {
        lemma_span_stop(s.drop_first(), d, j - 1);
    }
}

proof fn lemma_first_leaf_id(bs: Seq<BlockModel>)
    requires
        bs.len() > 0,
        bs[0].depth >= 1,
    ensures
        leaf(bs, 0).node_id != aggregator_id(),
        bs[0].depth == 1 ==> leaf(bs, 0).node_id == seq!['1'],
{
    let d = bs[0].depth;
    let ds = depths(bs.take(1));
    assert(ds == seq![d]);
    assert(ds.drop_last() == Seq::<nat>::empty());
    let cs = Seq::new(d, |k: int| counter(ds, (k + 1) as nat));
    assert(id_after(ds) == dotted(cs));
    assert(leaf(bs, 0).node_id == dotted(cs));
    assert(aggregator_id().len() == 1);
    if d == 1 {
        assert(counter(Seq::<nat>::empty(), 1) == 0);
        assert(counter(ds, 1) == 1);
        assert(cs == seq![1nat]);
        assert(digit(1) == '1');
        assert(decimal(1) == seq!['1']);
        assert(dotted(cs) == decimal(1));
        assert(dotted(cs)[0] != aggregator_id()[0]);
    } else {
        assert(decimal(cs.last()).len() >= 1);
        assert(dotted(cs).len() >= 2);
    }
}

/// Every section of `text` has depth at least 1.
pub proof fn lemma_seg_depths(text: Seq<char>)
    ensures
        forall|i: int| 0 <= i < blocks(text).len() ==> #[trigger] blocks(text)[i].depth >= 1,
{
    lemma_seg(lines(text));
}

/// A document has exactly as many real sections as it has heading lines,
/// whether or not its root is an aggregator.
pub proof fn lemma_ids_match_headings(text: Seq<char>)
    ensures
        tree_ids(root_of(text)).len() == heading_count(text),
{
    let bs = blocks(text);
    lemma_seg(lines(text));
    let ls = leaves(bs);
    let f = forest(ls);
    lemma_forest_size(ls);
    if f.len() == 1 {
        assert(ls.len() > 0);
        assert(f[0].node_id == leaf(bs, 0).node_id);
        lemma_first_leaf_id(bs);
        assert(f == seq![f[0]]);
        lemma_ids_all_single(f[0]);
    }
}

/// A document whose first heading has depth 1 and whose later headings are
/// all deeper has that first section as its root, with id `1`, and takes
/// the document title from it.
pub proof fn lemma_single_top_section(doc_id: Seq<char>, text: Seq<char>)
    requires
        blocks(text).len() > 0,
        blocks(text)[0].depth == 1,
        forall|i: int| 0 < i < blocks(text).len() ==> #[trigger] blocks(text)[i].depth > 1,
    ensures
        doc_title(doc_id, blocks(text)) == blocks(text)[0].title,
        root_of(text) == with_children(leaf(blocks(text), 0), forest(leaves(blocks(text)).drop_first())),
        root_of(text).node_id == seq!['1'],
        root_of(text).title == blocks(text)[0].title,
        root_of(text).depth == 1,
{
    let bs = blocks(text);
    let ls = leaves(bs);
    let rest = ls.drop_first();
    assert forall|i: int| 0 <= i < rest.len() implies #[trigger] rest[i].depth > 1 by {
        assert(rest[i] == leaf(bs, i + 1));
    }
    lemma_span_all(rest, 1);
    assert(rest.take(rest.len() as int) == rest);
    assert(rest.skip(rest.len() as int) == Seq::<NodeModel>::empty());
    assert(forest(Seq::<NodeModel>::empty()) == Seq::<NodeModel>::empty());
    lemma_first_leaf_id(bs);
}

/// A document with no heading, or with a second top-level heading, gets the
/// aggregator root; one with no heading, or whose first heading is deeper
/// than 1, keeps its id as title.
pub proof fn lemma_aggregated_root(doc_id: Seq<char>, text: Seq<char>)
    ensures
        (exists|i: int| 0 < i < blocks(text).len() && top_level(blocks(text), i))
            ==> root_of(text).node_id == aggregator_id(),
        blocks(text).len() == 0 ==> root_of(text).node_id == aggregator_id(),
        (blocks(text).len() == 0 || blocks(text)[0].depth > 1) ==> doc_title(doc_id, blocks(text))
            == doc_id,
{
    let bs = blocks(text);
    let ls = leaves(bs);
    if bs.len() == 0 {
        assert(ls.len() == 0);
        assert(forest(ls) == Seq::<NodeModel>::empty());
    }
    if exists|i: int| 0 < i < bs.len() && top_level(bs, i) {
        let i = choose|i: int| 0 < i < bs.len() && top_level(bs, i);
        let rest = ls.drop_first();
        assert(bs[0].depth >= bs[i].depth);
        assert(rest[i - 1] == leaf(bs, i));
        lemma_span_stop(rest, ls[0].depth, i - 1);
        let k = span(rest, ls[0].depth);
        let tail = rest.skip(k as int);
        assert(tail.len() > 0);
        assert(forest(tail).len() >= 1);
        assert(forest(ls).len() >= 2);
    }
}

} // verus!
