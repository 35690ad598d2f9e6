//! PTML: process trees as nested XML elements, operators as tag names and
//! activities as `activity` elements with a `label` attribute.

use vstd::prelude::*;
use crate::process_tree::{forest_shape, shape, PtOperator, ProcessTree, TreeShape};
use crate::text::{concat, str_eq};
use crate::xml::{attributes_as_written, kept_attributes, read_xml_events, xml_attribute_list, xml_events, XmlEvent, XmlEventView};

verus! {

/// The tag of an operator.
pub open spec fn op_tag(op: PtOperator) -> Seq<char> {
    match op {
        PtOperator::Sequence => "sequence"@,
        PtOperator::Xor => "xor"@,
        PtOperator::Parallel => "parallel"@,
        PtOperator::Loop => "loop"@,
    }
}

/// The lines of a tree indented by `pad`: an operator element around its
/// children's lines (indented two more spaces), an `activity` element for a
/// labelled leaf, a `tau` element for a silent one.
pub open spec fn node_lines(s: TreeShape, pad: Seq<char>) -> Seq<char>
    decreases s, 0nat,
{
    match s {
        TreeShape::Leaf(Some(l)) => pad + "<activity label=\""@ + l + "\"/>\n"@,
        TreeShape::Leaf(None) => pad + "<tau/>\n"@,
        TreeShape::Node(op, cs) => pad + "<"@ + op_tag(op) + ">\n"@ + forest_lines(cs, pad + "  "@) + pad + "</"@
            + op_tag(op) + ">\n"@,
    }
}

/// The lines of trees, one after the other.
pub open spec fn forest_lines(cs: Seq<TreeShape>, pad: Seq<char>) -> Seq<char>
    decreases cs, 1nat,
{
    if cs.len() == 0 {
        Seq::empty()
    } else {
        forest_lines(cs.drop_last(), pad) + node_lines(cs.last(), pad)
    }
}

/// The PTML document of a tree.
pub open spec fn ptml_text(s: TreeShape) -> Seq<char> {
    "<?xml version=\"1.0\" encoding=\"UTF-8\"?>\n"@ + "<ptml>\n"@ + node_lines(s, "  "@) + "</ptml>\n"@
}

fn op_tag_str(op: PtOperator) -> (res: &'static str)
    ensures
        res@ == op_tag(op),
{
    match op {
        PtOperator::Sequence => "sequence",
        PtOperator::Xor => "xor",
        PtOperator::Parallel => "parallel",
        PtOperator::Loop => "loop",
    }
}

fn write_tree_node(xml: &mut String, tree: &ProcessTree, pad: &str)
    ensures
        final(xml)@ == old(xml)@ + node_lines(shape(*tree), pad@),
    decreases tree,
{
    match tree.operator {
        Some(op) => {
            let tag = op_tag_str(op);
            xml.append(pad);
            xml.append("<");
            xml.append(tag);
            xml.append(">\n");
            let inner = concat(pad, "  ");
            let ghost cs = tree.children@;
            let ghost head = xml@;
            proof {
                assert(forest_shape(cs.take(0)) =~= Seq::<TreeShape>::empty());
            }
            for i in 0..tree.children.len()
                invariant
                    cs == tree.children@,
                    inner@ == pad@ + "  "@,
                    xml@ == head + forest_lines(forest_shape(cs.take(i as int)), inner@),
            {
                proof {
                    assert(decreases_to!(tree => tree.children));
                    assert(cs.take(i + 1).drop_last() =~= cs.take(i as int));
                    assert(cs.take(i + 1).last() == cs[i as int]);
                }
                write_tree_node(xml, &tree.children[i], inner.as_str());
                proof {
                    let fs = forest_shape(cs.take(i + 1));
                    assert(fs == forest_shape(cs.take(i as int)).push(shape(cs[i as int])));
                    assert(fs.drop_last() =~= forest_shape(cs.take(i as int)));
                    assert(fs.last() == shape(cs[i as int]));
                    assert(xml@ =~= head + forest_lines(forest_shape(cs.take(i + 1)), inner@));
                }
            }
            proof {
                assert(cs.take(cs.len() as int) =~= cs);
            }
            xml.append(pad);
            xml.append("</");
            xml.append(tag);
            xml.append(">\n");
            proof {
                assert(shape(*tree) == TreeShape::Node(op, forest_shape(cs)));
                assert(xml@ =~= old(xml)@ + node_lines(shape(*tree), pad@));
            }
        },
        None => match &tree.label {
            Some(label) => {
                xml.append(pad);
                xml.append("<activity label=\"");
                xml.append(label.as_str());
                xml.append("\"/>\n");
                proof {
                    assert(xml@ =~= old(xml)@ + node_lines(shape(*tree), pad@));
                }
            },
            None => {
                xml.append(pad);
                xml.append("<tau/>\n");
                proof {
                    assert(xml@ =~= old(xml)@ + node_lines(shape(*tree), pad@));
                }
            },
        },
    }
}

/// Serialize a ProcessTree to PTML XML format, as `ptml_text` states it.
pub fn to_ptml(tree: &ProcessTree) -> (res: String)
    ensures
        res@ == ptml_text(shape(*tree)),
{
    let mut xml = "<?xml version=\"1.0\" encoding=\"UTF-8\"?>\n".to_owned();
    xml.append("<ptml>\n");
    write_tree_node(&mut xml, tree, "  ");
    xml.append("</ptml>\n");
    proof {
        assert(xml@ =~= ptml_text(shape(*tree)));
    }
    xml
}


/// An element of a PTML document.
#[derive(Debug)]
pub enum PtmlToken {
    /// An opening tag with its attributes as (name, value), in order.
    Start(String, Vec<(String, String)>),
    /// A self-closing tag with its attributes.
    Empty(String, Vec<(String, String)>),
    /// A closing tag.
    End(String),
}

pub enum PtmlTokenView {
    Start(Seq<char>, Seq<(Seq<char>, Seq<char>)>),
    Empty(Seq<char>, Seq<(Seq<char>, Seq<char>)>),
    End(Seq<char>),
}

impl DeepView for PtmlToken {
    type V = PtmlTokenView;

    open spec fn deep_view(&self) -> PtmlTokenView {
        match self {
            PtmlToken::Start(n, a) => PtmlTokenView::Start(n@, a.deep_view()),
            PtmlToken::Empty(n, a) => PtmlTokenView::Empty(n@, a.deep_view()),
            PtmlToken::End(n) => PtmlTokenView::End(n@),
        }
    }
}

/// The value of the first attribute called `key`, if any.
pub open spec fn first_attr(attrs: Seq<(Seq<char>, Seq<char>)>, key: Seq<char>) -> Option<Seq<char>>
    decreases attrs.len(),
{
    if attrs.len() == 0 {
        None
    } else if attrs[0].0 == key {
        Some(attrs[0].1)
    } else {
        first_attr(attrs.drop_first(), key)
    }
}

/// The operator a tag names.
pub open spec fn tag_op(tag: Seq<char>) -> Option<PtOperator> {
    if tag == "sequence"@ {
        Some(PtOperator::Sequence)
    } else if tag == "xor"@ {
        Some(PtOperator::Xor)
    } else if tag == "parallel"@ {
        Some(PtOperator::Parallel)
    } else if tag == "loop"@ {
        Some(PtOperator::Loop)
    } else {
        None
    }
}

/// The leaf an element names: an activity with its `label`, or `tau`.
pub open spec fn tag_leaf(tag: Seq<char>, attrs: Seq<(Seq<char>, Seq<char>)>) -> Option<TreeShape> {
    if tag == "activity"@ {
        Some(TreeShape::Leaf(first_attr(attrs, "label"@)))
    } else if tag == "tau"@ {
        Some(TreeShape::Leaf(None))
    } else {
        None
    }
}

/// `x` added as the last child of an inner node (a leaf stays as it is).
pub open spec fn add_child(top: TreeShape, x: TreeShape) -> TreeShape {
    match top {
        TreeShape::Node(op, cs) => TreeShape::Node(op, cs.push(x)),
        TreeShape::Leaf(l) => TreeShape::Leaf(l),
    }
}

/// `x` attached to the top of the stack, or pushed when it is empty.
pub open spec fn attach(st: Seq<TreeShape>, x: TreeShape) -> Seq<TreeShape> {
    if st.len() > 0 {
        st.drop_last().push(add_child(st.last(), x))
    } else {
        st.push(x)
    }
}

/// The stack of open trees after one more element: an opening operator
/// tag opens an inner node, an opening `activity` or `tau` tag a leaf; a
/// self-closing `activity` or `tau` is attached; a closing operator tag
/// closes the top tree and attaches it.
pub open spec fn ptml_step(st: Seq<TreeShape>, tok: PtmlTokenView) -> Seq<TreeShape> {
    match tok {
        PtmlTokenView::Start(tag, attrs) => match tag_op(tag) {
            Some(op) => st.push(TreeShape::Node(op, Seq::empty())),
            None => match tag_leaf(tag, attrs) {
                Some(l) => st.push(l),
                None => st,
            },
        },
        PtmlTokenView::Empty(tag, attrs) => match tag_leaf(tag, attrs) {
            Some(l) => attach(st, l),
            None => st,
        },
        PtmlTokenView::End(tag) => if tag_op(tag) is Some && st.len() > 0 {
            attach(st.drop_last(), st.last())
        } else {
            st
        },
    }
}

/// The stack after a sequence of elements from `st`.
pub open spec fn ptml_run(st: Seq<TreeShape>, toks: Seq<PtmlTokenView>) -> Seq<TreeShape>
    decreases toks.len(),
{
    if toks.len() == 0 {
        st
    } else {
        ptml_step(ptml_run(st, toks.drop_last()), toks.last())
    }
}

/// The tree a sequence of elements describes: the top of the stack at the
/// end, if any.
pub open spec fn ptml_read(toks: Seq<PtmlTokenView>) -> Option<TreeShape> {
    let st = ptml_run(Seq::empty(), toks);
    if st.len() > 0 { Some(st.last()) } else { None }
}

fn first_attr_of(attrs: &Vec<(String, String)>, key: &str) -> (res: Option<String>)
    ensures
        res.deep_view() == first_attr(attrs.deep_view(), key@),
{
    let ghost av = attrs.deep_view();
    proof {
        assert(av.skip(0) =~= av);
    }
    for i in 0..attrs.len()
        invariant
            av == attrs.deep_view(),
            first_attr(av, key@) == first_attr(av.skip(i as int), key@),
    {
        proof {
            assert(av.skip(i as int)[0] == av[i as int]);
            assert(av.skip(i as int).drop_first() =~= av.skip(i + 1));
            assert(av[i as int] == attrs@[i as int].deep_view());
        }
        if str_eq(attrs[i].0.as_str(), key) {
            return Some(attrs[i].1.clone());
        }
    }
    proof {
        assert(av.skip(av.len() as int) =~= Seq::<(Seq<char>, Seq<char>)>::empty());
    }
    None
}

fn op_of_tag(tag: &str) -> (res: Option<PtOperator>)
    ensures
        res == tag_op(tag@),
{
    if str_eq(tag, "sequence") {
        Some(PtOperator::Sequence)
    } else if str_eq(tag, "xor") {
        Some(PtOperator::Xor)
    } else if str_eq(tag, "parallel") {
        Some(PtOperator::Parallel)
    } else if str_eq(tag, "loop") {
        Some(PtOperator::Loop)
    } else {
        None
    }
}

fn leaf_of_tag(tag: &str, attrs: &Vec<(String, String)>) -> (res: Option<ProcessTree>)
    ensures
        match res {
            Some(t) => tag_leaf(tag@, attrs.deep_view()) == Some(shape(t)),
            None => tag_leaf(tag@, attrs.deep_view()) is None,
        },
{
    if str_eq(tag, "activity") {
        let label = first_attr_of(attrs, "label");
        let t = ProcessTree::leaf(label);
        proof {
            assert(shape(t) == TreeShape::Leaf(crate::process_tree::label_view(t.label)));
        }
        Some(t)
    } else if str_eq(tag, "tau") {
        Some(ProcessTree::leaf(None))
    } else {
        None
    }
}

/// Attaches `node` to the top tree of the stack, or pushes it when the
/// stack is empty.
fn attach_node(stack: &mut Vec<ProcessTree>, node: ProcessTree)
    ensures
        forest_shape(final(stack)@) == attach(forest_shape(old(stack)@), shape(node)),
{
    let ghost before = stack@;
    proof {
        crate::process_tree::lemma_forest_shape_len(before);
    }
    match stack.pop() {
        Some(mut parent) => {
            let ghost pv = parent;
            proof {
                assert(before.drop_last() =~= stack@);
                assert(before.last() == pv);
                assert(forest_shape(before) == forest_shape(stack@).push(shape(pv)));
            }
            parent.children.push(node);
            proof {
                assert(parent.children@.drop_last() =~= pv.children@);
                assert(forest_shape(parent.children@) == forest_shape(pv.children@).push(shape(node)));
                assert(shape(parent) == add_child(shape(pv), shape(node)));
                assert(forest_shape(before).drop_last() =~= forest_shape(stack@));
            }
            let ghost mid = stack@;
            stack.push(parent);
            proof {
                assert(stack@.drop_last() =~= mid);
            }
        },
        None => {
            stack.push(node);
            proof {
                assert(before =~= Seq::<ProcessTree>::empty());
                assert(stack@.drop_last() =~= before);
            }
        },
    }
}

/// Parse the elements of a PTML document into a ProcessTree: the tree
/// `ptml_read` describes, or an error when there is none.
pub fn ptml_from_tokens(tokens: &Vec<PtmlToken>) -> (res: Result<ProcessTree, String>)
    ensures
        match ptml_read(tokens.deep_view()) {
            Some(s) => res matches Ok(t) && shape(t) == s,
            None => res matches Err(e) && e@ == "Empty PTML: no process tree found"@,
        },
{
    let ghost tv = tokens.deep_view();
    let mut stack: Vec<ProcessTree> = Vec::new();
    proof {
        assert(forest_shape(stack@) =~= Seq::<TreeShape>::empty());
        assert(tv.take(0) =~= Seq::<PtmlTokenView>::empty());
    }
    for i in 0..tokens.len()
        invariant
            tv == tokens.deep_view(),
            forest_shape(stack@) == ptml_run(Seq::empty(), tv.take(i as int)),
    {
        proof {
            assert(tv.take(i + 1).drop_last() =~= tv.take(i as int));
            assert(tv.take(i + 1).last() == tv[i as int]);
            assert(tv[i as int] == tokens@[i as int].deep_view());
        }
        let ghost st0 = forest_shape(stack@);
        let ghost tok = tv[i as int];
        match &tokens[i] {
            PtmlToken::Start(tag, attrs) => match op_of_tag(tag.as_str()) {
                Some(op) => {
                    let ghost before = stack@;
                    stack.push(ProcessTree::internal(op, Vec::new()));
                    proof {
                        assert(stack@.drop_last() =~= before);
                        assert(forest_shape(Seq::<ProcessTree>::empty()) =~= Seq::<TreeShape>::empty());
                        assert(shape(stack@.last()) == TreeShape::Node(op, Seq::<TreeShape>::empty()));
                        assert(forest_shape(stack@) == st0.push(TreeShape::Node(op, Seq::<TreeShape>::empty())));
                        assert(forest_shape(stack@) == ptml_step(st0, tok));
                    }
                },
                None => match leaf_of_tag(tag.as_str(), attrs) {
                    Some(l) => {
                        let ghost before = stack@;
                        stack.push(l);
                        proof {
                            assert(stack@.drop_last() =~= before);
                            assert(forest_shape(stack@) == ptml_step(st0, tok));
                        }
                    },
                    None => {},
                },
            },
            PtmlToken::Empty(tag, attrs) => match leaf_of_tag(tag.as_str(), attrs) {
                Some(l) => attach_node(&mut stack, l),
                None => {},
            },
            PtmlToken::End(tag) => {
                if op_of_tag(tag.as_str()).is_some() {
                    let ghost before = stack@;
                    proof {
                        crate::process_tree::lemma_forest_shape_len(before);
                    }
                    match stack.pop() {
                        Some(done) => {
                            proof {
                                assert(before.drop_last() =~= stack@);
                                assert(forest_shape(before).drop_last() =~= forest_shape(stack@));
                                assert(forest_shape(before).last() == shape(done));
                            }
                            attach_node(&mut stack, done);
                        },
                        None => {
                            proof {
                                assert(forest_shape(stack@) == ptml_step(st0, tok));
                            }
                        },
                    }
                }
            },
        }
        proof {
            assert(forest_shape(stack@) == ptml_step(st0, tok));
        }
    }
    proof {
        assert(tv.take(tv.len() as int) =~= tv);
        crate::process_tree::lemma_forest_shape_len(stack@);
    }
    let ghost fin = stack@;
    match stack.pop() {
        Some(t) => {
            proof {
                assert(fin.drop_last() =~= stack@);
                assert(forest_shape(fin).last() == shape(t));
            }
            Ok(t)
        },
        None => Err("Empty PTML: no process tree found".to_owned()),
    }
}

/// The elements a tree is written as: an operator element around its
/// children's, a self-closing `activity` with its label, or `tau`.
pub open spec fn node_tokens(s: TreeShape) -> Seq<PtmlTokenView>
    decreases s, 0nat,
{
    match s {
        TreeShape::Leaf(Some(l)) => seq![PtmlTokenView::Empty("activity"@, seq![("label"@, l)])],
        TreeShape::Leaf(None) => seq![PtmlTokenView::Empty("tau"@, Seq::empty())],
        TreeShape::Node(op, cs) => seq![PtmlTokenView::Start(op_tag(op), Seq::empty())] + forest_tokens(cs)
            + seq![PtmlTokenView::End(op_tag(op))],
    }
}

/// The elements of trees, one after the other.
pub open spec fn forest_tokens(cs: Seq<TreeShape>) -> Seq<PtmlTokenView>
    decreases cs, 1nat,
{
    if cs.len() == 0 {
        Seq::empty()
    } else {
        forest_tokens(cs.drop_last()) + node_tokens(cs.last())
    }
}

/// The elements of a PTML document: the tree's inside a `ptml` element.
pub open spec fn ptml_tokens(s: TreeShape) -> Seq<PtmlTokenView> {
    seq![PtmlTokenView::Start("ptml"@, Seq::empty())] + node_tokens(s) + seq![PtmlTokenView::End("ptml"@)]
}

proof fn lemma_run_append(st: Seq<TreeShape>, a: Seq<PtmlTokenView>, b: Seq<PtmlTokenView>)
    ensures
        ptml_run(st, a + b) == ptml_run(ptml_run(st, a), b),
    decreases b.len(),
{
    if b.len() == 0 {
        assert(a + b =~= a);
    } else {
        assert((a + b).drop_last() =~= a + b.drop_last());
        assert((a + b).last() == b.last());
        lemma_run_append(st, a, b.drop_last());
    }
}

proof fn lemma_tags()
    ensures
        tag_op("activity"@) is None,
        tag_op("tau"@) is None,
        tag_op("ptml"@) is None,
        tag_leaf("ptml"@, Seq::empty()) is None,
        forall|op: PtOperator| tag_op(#[trigger] op_tag(op)) == Some(op),
        forall|op: PtOperator| tag_leaf(#[trigger] op_tag(op), Seq::empty()) is None,
{
    reveal_strlit("activity");
    reveal_strlit("tau");
    reveal_strlit("ptml");
    reveal_strlit("sequence");
    reveal_strlit("xor");
    reveal_strlit("parallel");
    reveal_strlit("loop");
    reveal_strlit("label");
    let act = "activity"@;
    let tau = "tau"@;
    let ptml = "ptml"@;
    let sq = "sequence"@;
    let xr = "xor"@;
    let par = "parallel"@;
    let lp = "loop"@;
    assert(act[0] == 'a' && tau[0] == 't' && ptml[0] == 'p' && ptml[1] == 't');
    assert(sq[0] == 's' && xr[0] == 'x' && par[0] == 'p' && par[1] == 'a' && lp[0] == 'l');
    assert(act != sq && act != xr && act != par && act != lp) by {
        if act == sq { assert(act[0] == sq[0]); }
        if act == xr { assert(act[0] == xr[0]); }
        if act == par { assert(act[0] == par[0]); }
        if act == lp { assert(act[0] == lp[0]); }
    }
    assert(tau != sq && tau != xr && tau != par && tau != lp) by {
        if tau == sq { assert(tau[0] == sq[0]); }
        if tau == xr { assert(tau[0] == xr[0]); }
        if tau == par { assert(tau[0] == par[0]); }
        if tau == lp { assert(tau[0] == lp[0]); }
    }
    assert(ptml != sq && ptml != xr && ptml != par && ptml != lp && ptml != act && ptml != tau) by {
        if ptml == sq { assert(ptml[0] == sq[0]); }
        if ptml == xr { assert(ptml[0] == xr[0]); }
        if ptml == par { assert(ptml[1] == par[1]); }
        if ptml == lp { assert(ptml[0] == lp[0]); }
        if ptml == act { assert(ptml[0] == act[0]); }
        if ptml == tau { assert(ptml[0] == tau[0]); }
    }
    assert(xr != sq && par != sq && lp != sq && par != xr && lp != xr && lp != par) by {
        if xr == sq { assert(xr[0] == sq[0]); }
        if par == sq { assert(par[0] == sq[0]); }
        if lp == sq { assert(lp[0] == sq[0]); }
        if par == xr { assert(par[0] == xr[0]); }
        if lp == xr { assert(lp[0] == xr[0]); }
        if lp == par { assert(lp[0] == par[0]); }
    }
    assert(sq != act && xr != act && par != act && lp != act && sq != tau && xr != tau && par != tau && lp != tau);
}

proof fn lemma_node_tokens(s: TreeShape, st: Seq<TreeShape>)
    ensures
        ptml_run(st, node_tokens(s)) == attach(st, s),
    decreases s, 0nat,
{
    lemma_tags();
    match s {
        TreeShape::Leaf(Some(l)) => {
            let toks = node_tokens(s);
            assert(toks.drop_last() =~= Seq::<PtmlTokenView>::empty());
            reveal_strlit("label");
            let attrs = seq![("label"@, l)];
            assert(first_attr(attrs, "label"@) == Some(l));
            assert(tag_leaf("activity"@, attrs) == Some(TreeShape::Leaf(Some(l))));
            assert(ptml_run(st, Seq::<PtmlTokenView>::empty()) == st);
            assert(toks.last() == PtmlTokenView::Empty("activity"@, attrs));
            assert(ptml_run(st, toks) == ptml_step(st, PtmlTokenView::Empty("activity"@, attrs)));
        },
        TreeShape::Leaf(None) => {
            let toks = node_tokens(s);
            assert(toks.drop_last() =~= Seq::<PtmlTokenView>::empty());
            assert(ptml_run(st, Seq::<PtmlTokenView>::empty()) == st);
        },
        TreeShape::Node(op, cs) => {
            let open = seq![PtmlTokenView::Start(op_tag(op), Seq::empty())];
            let close = seq![PtmlTokenView::End(op_tag(op))];
            assert(node_tokens(s) =~= open + forest_tokens(cs) + close);
            lemma_run_append(st, open + forest_tokens(cs), close);
            lemma_run_append(st, open, forest_tokens(cs));
            assert(open.drop_last() =~= Seq::<PtmlTokenView>::empty());
            assert(ptml_run(st, Seq::<PtmlTokenView>::empty()) == st);
            assert(tag_op(op_tag(op)) == Some(op));
            let st1 = st.push(TreeShape::Node(op, Seq::empty()));
            assert(ptml_run(st, open) == st1);
            lemma_forest_tokens(cs, st, op, Seq::empty());
            assert(Seq::<TreeShape>::empty() + cs =~= cs);
            let st2 = st.push(TreeShape::Node(op, cs));
            assert(close.drop_last() =~= Seq::<PtmlTokenView>::empty());
            assert(ptml_run(st2, Seq::<PtmlTokenView>::empty()) == st2);
            assert(ptml_run(st2, close) == ptml_step(st2, PtmlTokenView::End(op_tag(op))));
            assert(st2.drop_last() =~= st);
        },
    }
}

proof fn lemma_forest_tokens(cs: Seq<TreeShape>, st: Seq<TreeShape>, op: PtOperator, pre: Seq<TreeShape>)
    ensures
        ptml_run(st.push(TreeShape::Node(op, pre)), forest_tokens(cs)) == st.push(TreeShape::Node(op, pre + cs)),
    decreases cs, 1nat,
{
    if cs.len() == 0 {
        assert(pre + cs =~= pre);
    } else {
        let rest = cs.drop_last();
        lemma_forest_tokens(rest, st, op, pre);
        lemma_run_append(st.push(TreeShape::Node(op, pre)), forest_tokens(rest), node_tokens(cs.last()));
        lemma_node_tokens(cs.last(), st.push(TreeShape::Node(op, pre + rest)));
        assert(st.push(TreeShape::Node(op, pre + rest)).drop_last() =~= st);
        assert((pre + rest).push(cs.last()) =~= pre + cs);
    }
}

/// Reading the elements of the PTML document of a tree gives the tree back.
pub proof fn lemma_ptml_roundtrip(s: TreeShape)
    ensures
        ptml_read(ptml_tokens(s)) == Some(s),
{
    lemma_tags();
    let e = Seq::<TreeShape>::empty();
    let open = seq![PtmlTokenView::Start("ptml"@, Seq::empty())];
    let close = seq![PtmlTokenView::End("ptml"@)];
    lemma_run_append(e, open + node_tokens(s), close);
    lemma_run_append(e, open, node_tokens(s));
    assert(open.drop_last() =~= Seq::<PtmlTokenView>::empty());
    assert(ptml_run(e, Seq::<PtmlTokenView>::empty()) == e);
    assert(ptml_run(e, open) == e);
    lemma_node_tokens(s, e);
    assert(attach(e, s) =~= seq![s]);
    assert(close.drop_last() =~= Seq::<PtmlTokenView>::empty());
    assert(ptml_run(seq![s], Seq::<PtmlTokenView>::empty()) == seq![s]);
    assert(ptml_run(seq![s], close) == seq![s]);
}

/// The PTML elements of a document's events: tags with their well-formed
/// attributes (values as written); texts and the rest passed over.
pub open spec fn ptml_tokens_of(evs: Seq<XmlEventView>) -> Seq<PtmlTokenView>
    decreases evs.len(),
{
    if evs.len() == 0 {
        Seq::empty()
    } else {
        let ts = ptml_tokens_of(evs.drop_last());
        match evs.last() {
            XmlEventView::Start(n, raw) => ts.push(PtmlTokenView::Start(n, kept_attributes(xml_attribute_list(raw)))),
            XmlEventView::Empty(n, raw) => ts.push(PtmlTokenView::Empty(n, kept_attributes(xml_attribute_list(raw)))),
            XmlEventView::End(n) => ts.push(PtmlTokenView::End(n)),
            _ => ts,
        }
    }
}

/// The PTML elements of a document's events, as `ptml_tokens_of` states them.
pub fn ptml_document_tokens(events: &Vec<XmlEvent>) -> (res: Vec<PtmlToken>)
    ensures
        res.deep_view() == ptml_tokens_of(events.deep_view()),
{
    let ghost ev = events.deep_view();
    let mut res: Vec<PtmlToken> = Vec::new();
    for i in 0..events.len()
        invariant
            ev == events.deep_view(),
            ptml_tokens_of(ev.take(i as int)) == res.deep_view(),
    {
        proof {
            assert(ev.take(i + 1).drop_last() =~= ev.take(i as int));
            assert(ev.take(i + 1).last() == ev[i as int]);
        }
        let ghost before = res.deep_view();
        match &events[i] {
            XmlEvent::Start(n, raw) => {
                let a = attributes_as_written(raw);
                let ghost av = a.deep_view();
                res.push(PtmlToken::Start(n.clone(), a));
                proof { assert(res.deep_view() =~= before.push(PtmlTokenView::Start(n@, av))); }
            },
            XmlEvent::Empty(n, raw) => {
                let a = attributes_as_written(raw);
                let ghost av = a.deep_view();
                res.push(PtmlToken::Empty(n.clone(), a));
                proof { assert(res.deep_view() =~= before.push(PtmlTokenView::Empty(n@, av))); }
            },
            XmlEvent::End(n) => {
                res.push(PtmlToken::End(n.clone()));
                proof { assert(res.deep_view() =~= before.push(PtmlTokenView::End(n@))); }
            },
            _ => {},
        }
    }
    proof {
        assert(ev.take(events.len() as int) =~= ev);
    }
    res
}

/// Parse a PTML document into a ProcessTree: the tree `ptml_read` describes
/// for the document's elements; an error where quick_xml reports one or the
/// elements describe no tree.
pub fn from_ptml(xml: &str) -> (res: Result<ProcessTree, String>)
    ensures
        match xml_events(xml@) {
            None => res is Err,
            Some(evs) => match ptml_read(ptml_tokens_of(evs)) {
                Some(s) => res matches Ok(t) && shape(t) == s,
                None => res matches Err(e) && e@ == "Empty PTML: no process tree found"@,
            },
        },
{
    let events = read_xml_events(xml)?;
    let tokens = ptml_document_tokens(&events);
    ptml_from_tokens(&tokens)
}

} // verus!
