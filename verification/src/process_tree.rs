//! Process trees: leaves are activities (or the silent step `tau`), inner
//! nodes combine their children by sequence, exclusive choice, parallelism
//! or loop.

use vstd::prelude::*;
use crate::text::concat;

verus! {

/// The operator of an inner node of a process tree.
#[derive(Clone, Copy, Debug, Hash, PartialEq, Eq, Structural)]
pub enum PtOperator {
    Sequence,
    Xor,
    Parallel,
    Loop,
}

/// A process tree node: a leaf when `operator` is `None` (with `label`
/// `None` for a silent step), an inner node over `children` otherwise.
#[derive(Debug)]
pub struct ProcessTree {
    pub operator: Option<PtOperator>,
    pub label: Option<String>,
    pub children: Vec<ProcessTree>,
}

/// The symbol of an operator.
pub open spec fn op_symbol(op: PtOperator) -> Seq<char> {
    match op {
        PtOperator::Sequence => "->"@,
        PtOperator::Xor => "X"@,
        PtOperator::Parallel => "+"@,
        PtOperator::Loop => "*"@,
    }
}

/// The text of a tree: a leaf is its label (or `tau`), an inner node is
/// its operator symbol followed by its children in ` ( a, b )`.
pub open spec fn repr(t: ProcessTree) -> Seq<char>
    decreases t, 0nat,
{
    match t.operator {
        None => match t.label {
            Some(l) => l@,
            None => "tau"@,
        },
        Some(op) => {
            proof {
                assert(decreases_to!(t => t.children));
                assert(decreases_to!(t.children => t.children@));
            }
            op_symbol(op) + " ( "@ + children_repr(t.children@) + " )"@
        },
    }
}

/// The texts of `cs` separated by `, `.
pub open spec fn children_repr(cs: Seq<ProcessTree>) -> Seq<char>
    decreases cs, 1nat,
{
    if cs.len() == 0 {
        Seq::empty()
    } else if cs.len() == 1 {
        repr(cs[0])
    } else {
        children_repr(cs.drop_last()) + ", "@ + repr(cs.last())
    }
}

impl ProcessTree {
    /// A leaf: an activity, or the silent step for `None`.
    pub fn leaf(label: Option<String>) -> (res: ProcessTree)
        ensures
            res.operator is None,
            res.label == label,
            res.children@.len() == 0,
    {
        ProcessTree { operator: None, label, children: Vec::new() }
    }

    /// An inner node.
    pub fn internal(operator: PtOperator, children: Vec<ProcessTree>) -> (res: ProcessTree)
        ensures
            res.operator == Some(operator),
            res.label is None,
            res.children == children,
    {
        ProcessTree { operator: Some(operator), label: None, children }
    }
}

fn op_str(op: PtOperator) -> (res: &'static str)
    ensures
        res@ == op_symbol(op),
{
    match op {
        PtOperator::Sequence => "->",
        PtOperator::Xor => "X",
        PtOperator::Parallel => "+",
        PtOperator::Loop => "*",
    }
}

impl ProcessTree {
    /// The text of the tree, as `repr` states it.
    pub fn to_repr(&self) -> (res: String)
        ensures
            res@ == repr(*self),
        decreases self,
    {
        match self.operator {
            None => match &self.label {
                Some(l) => l.clone(),
                None => "tau".to_owned(),
            },
            Some(op) => {
                let ghost cs = self.children@;
                let mut s = concat(op_str(op), " ( ");
                for i in 0..self.children.len()
                    invariant
                        cs == self.children@,
                        self.operator == Some(op),
                        s@ == op_symbol(op) + " ( "@ + children_repr(cs.take(i as int)),
                {
                    proof {
                        assert(cs.take(i + 1).drop_last() =~= cs.take(i as int));
                        assert(decreases_to!(self => self.children));
                    }
                    if i > 0 {
                        s = concat(s.as_str(), ", ");
                    }
                    let c = self.children[i].to_repr();
                    s = concat(s.as_str(), c.as_str());
                    proof {
                        assert(s@ =~= op_symbol(op) + " ( "@ + children_repr(cs.take(i + 1)));
                    }
                }
                proof {
                    assert(cs.take(cs.len() as int) =~= cs);
                }
                concat(s.as_str(), " )")
            },
        }
    }
}

/// The number of nodes of a tree.
pub open spec fn tree_size(t: ProcessTree) -> nat
    decreases t, 0nat,
{
    proof {
        assert(decreases_to!(t => t.children));
        assert(decreases_to!(t.children => t.children@));
    }
    1 + forest_size(t.children@)
}

/// The number of nodes of a sequence of trees.
pub open spec fn forest_size(cs: Seq<ProcessTree>) -> nat
    decreases cs, 1nat,
{
    if cs.len() == 0 {
        0
    } else {
        tree_size(cs[0]) + forest_size(cs.drop_first())
    }
}

/// Every loop node of the tree has a body (a first child).
pub open spec fn loops_have_body(t: ProcessTree) -> bool
    decreases t, 0nat,
{
    proof {
        assert(decreases_to!(t => t.children));
        assert(decreases_to!(t.children => t.children@));
    }
    (t.operator == Some(PtOperator::Loop) ==> t.children@.len() > 0) && forest_loops_have_body(t.children@)
}

/// Every loop node of each tree has a body.
pub open spec fn forest_loops_have_body(cs: Seq<ProcessTree>) -> bool
    decreases cs, 1nat,
{
    cs.len() == 0 || (loops_have_body(cs[0]) && forest_loops_have_body(cs.drop_first()))
}

/// The shape of a process tree: leaves by label, inner nodes by operator
/// and children.
pub enum TreeShape {
    Leaf(Option<Seq<char>>),
    Node(PtOperator, Seq<TreeShape>),
}

/// The text of a label, if any.
pub open spec fn label_view(l: Option<String>) -> Option<Seq<char>> {
    match l {
        Some(s) => Some(s@),
        None => None,
    }
}

/// The shape of a tree.
pub open spec fn shape(t: ProcessTree) -> TreeShape
    decreases t, 0nat,
{
    proof {
        assert(decreases_to!(t => t.children));
        assert(decreases_to!(t.children => t.children@));
    }
    match t.operator {
        None => TreeShape::Leaf(label_view(t.label)),
        Some(op) => TreeShape::Node(op, forest_shape(t.children@)),
    }
}

/// The shapes of a sequence of trees.
pub open spec fn forest_shape(cs: Seq<ProcessTree>) -> Seq<TreeShape>
    decreases cs, 1nat,
{
    if cs.len() == 0 {
        Seq::empty()
    } else {
        forest_shape(cs.drop_last()).push(shape(cs.last()))
    }
}

pub proof fn lemma_forest_shape_len(cs: Seq<ProcessTree>)
    ensures
        forest_shape(cs).len() == cs.len(),
    decreases cs.len(),
{
    if cs.len() > 0 {
        lemma_forest_shape_len(cs.drop_last());
    }
}

pub proof fn lemma_forest_shape_append(a: Seq<ProcessTree>, b: Seq<ProcessTree>)
    ensures
        forest_shape(a + b) == forest_shape(a) + forest_shape(b),
    decreases b.len(),
{
    if b.len() == 0 {
        assert(a + b =~= a);
        assert(forest_shape(a) + forest_shape(b) =~= forest_shape(a));
    } else {
        assert((a + b).drop_last() =~= a + b.drop_last());
        lemma_forest_shape_append(a, b.drop_last());
        assert(forest_shape(a + b) =~= forest_shape(a) + forest_shape(b));
    }
}

/// Simplification of a shape: children simplified first, a child with the
/// same operator as its parent replaced by its children, and a node left
/// with a single child replaced by that child.
pub open spec fn simplified_shape(s: TreeShape) -> TreeShape
    decreases s, 0nat,
{
    match s {
        TreeShape::Leaf(l) => TreeShape::Leaf(l),
        TreeShape::Node(op, cs) => {
            let flat = flattened(op, simplified_forest(cs));
            if flat.len() == 1 { flat[0] } else { TreeShape::Node(op, flat) }
        },
    }
}

/// Simplification of each shape.
pub open spec fn simplified_forest(cs: Seq<TreeShape>) -> Seq<TreeShape>
    decreases cs, 1nat,
{
    if cs.len() == 0 {
        Seq::empty()
    } else {
        simplified_forest(cs.drop_last()).push(simplified_shape(cs.last()))
    }
}

/// The shapes with each node of operator `op` replaced by its children.
pub open spec fn flattened(op: PtOperator, ds: Seq<TreeShape>) -> Seq<TreeShape>
    decreases ds.len(),
{
    if ds.len() == 0 {
        Seq::empty()
    } else {
        let rest = flattened(op, ds.drop_last());
        match ds.last() {
            TreeShape::Node(op2, gs) => if op2 == op { rest + gs } else { rest.push(ds.last()) },
            TreeShape::Leaf(_) => rest.push(ds.last()),
        }
    }
}

fn copy_label(label: &Option<String>) -> (res: Option<String>)
    ensures
        res == *label,
{
    match label {
        Some(l) => Some(l.clone()),
        None => None,
    }
}

/// A copy of a tree with the same shape.
fn copy_tree(t: &ProcessTree) -> (res: ProcessTree)
    ensures
        shape(res) == shape(*t),
        res.operator == t.operator,
    decreases t,
{
    let ghost cs = t.children@;
    let mut children: Vec<ProcessTree> = Vec::new();
    for i in 0..t.children.len()
        invariant
            cs == t.children@,
            children@.len() == i,
            forest_shape(children@) == forest_shape(cs.take(i as int)),
    {
        proof {
            assert(decreases_to!(t => t.children));
            assert(cs.take(i + 1).drop_last() =~= cs.take(i as int));
        }
        let c = copy_tree(&t.children[i]);
        let ghost cp = children@;
        children.push(c);
        proof {
            assert(children@.drop_last() =~= cp);
        }
    }
    proof {
        assert(cs.take(cs.len() as int) =~= cs);
    }
    ProcessTree { operator: t.operator, label: copy_label(&t.label), children }
}

fn simplify_ref(t: &ProcessTree) -> (res: ProcessTree)
    ensures
        shape(res) == simplified_shape(shape(*t)),
    decreases t,
{
    match t.operator {
        None => {
            let c = copy_tree(t);
            proof {
                let l = label_view(t.label);
                assert(shape(*t) == TreeShape::Leaf(l));
                assert(simplified_shape(TreeShape::Leaf(l)) == TreeShape::Leaf(l));
            }
            c
        },
        Some(op) => {
            let ghost cs = t.children@;
            let mut flat: Vec<ProcessTree> = Vec::new();
            for i in 0..t.children.len()
                invariant
                    cs == t.children@,
                    t.operator == Some(op),
                    forest_shape(flat@) == flattened(op, simplified_forest(forest_shape(cs.take(i as int)))),
            {
                proof {
                    assert(decreases_to!(t => t.children));
                    assert(cs.take(i + 1).drop_last() =~= cs.take(i as int));
                    assert(forest_shape(cs.take(i + 1)).drop_last() =~= forest_shape(cs.take(i as int)));
                    assert(simplified_forest(forest_shape(cs.take(i + 1))).drop_last()
                        =~= simplified_forest(forest_shape(cs.take(i as int))));
                }
                let mut d = simplify_ref(&t.children[i]);
                let ghost fp = flat@;
                let ghost dv = d;
                if d.operator == Some(op) {
                    flat.append(&mut d.children);
                    proof {
                        lemma_forest_shape_append(fp, dv.children@);
                    }
                } else {
                    flat.push(d);
                    proof {
                        assert(flat@.drop_last() =~= fp);
                    }
                }
            }
            proof {
                assert(cs.take(cs.len() as int) =~= cs);
            }
            if flat.len() == 1 {
                let ghost f0 = flat@;
                let only = flat.remove(0);
                proof {
                    assert(only == f0[0]);
                    assert(f0.drop_last() =~= Seq::<ProcessTree>::empty());
                    assert(f0.last() == only);
                    assert(forest_shape(Seq::<ProcessTree>::empty()) =~= Seq::<TreeShape>::empty());
                    assert(forest_shape(f0) == forest_shape(f0.drop_last()).push(shape(f0.last())));
                    assert(forest_shape(f0) =~= seq![shape(only)]);
                    assert(shape(*t) == TreeShape::Node(op, forest_shape(cs)));
                }
                return only;
            }
            proof {
                lemma_forest_shape_len(flat@);
            }
            ProcessTree::internal(op, flat)
        },
    }
}

/// Simplifies a tree as `simplified_shape` states: nested nodes of the same
/// operator are flattened and nodes with a single child are replaced by it.
pub fn simplify_tree(tree: ProcessTree) -> (res: ProcessTree)
    ensures
        shape(res) == simplified_shape(shape(tree)),
{
    match tree.operator {
        None => tree,
        Some(_) => simplify_ref(&tree),
    }
}

/// `s` is a node of operator `op`.
pub open spec fn is_op_node(s: TreeShape, op: PtOperator) -> bool {
    s matches TreeShape::Node(op2, _) && op2 == op
}

/// A simplified shape: no node has exactly one child or a child with its
/// own operator.
pub open spec fn normal_shape(s: TreeShape) -> bool
    decreases s, 0nat,
{
    match s {
        TreeShape::Leaf(_) => true,
        TreeShape::Node(op, cs) => {
            &&& cs.len() != 1
            &&& forall|i: int| 0 <= i < cs.len() ==> !is_op_node(#[trigger] cs[i], op)
            &&& normal_forest(cs)
        },
    }
}

/// Each shape is simplified.
pub open spec fn normal_forest(cs: Seq<TreeShape>) -> bool
    decreases cs, 1nat,
{
    cs.len() == 0 || (normal_forest(cs.drop_last()) && normal_shape(cs.last()))
}

proof fn lemma_normal_forest_all(cs: Seq<TreeShape>)
    ensures
        normal_forest(cs) <==> forall|i: int| 0 <= i < cs.len() ==> normal_shape(#[trigger] cs[i]),
    decreases cs.len(),
{
    if cs.len() > 0 {
        lemma_normal_forest_all(cs.drop_last());
        let d = cs.drop_last();
        if forall|i: int| 0 <= i < cs.len() ==> normal_shape(#[trigger] cs[i]) {
            assert forall|i: int| 0 <= i < d.len() implies normal_shape(#[trigger] d[i]) by {
                assert(d[i] == cs[i]);
            }
            assert(normal_shape(cs[cs.len() - 1]));
        }
        if normal_forest(cs) {
            assert forall|i: int| 0 <= i < cs.len() implies normal_shape(#[trigger] cs[i]) by {
                if i < d.len() {
                    assert(d[i] == cs[i]);
                }
            }
        }
    }
}

proof fn lemma_simplified_forest_shape(cs: Seq<TreeShape>)
    ensures
        simplified_forest(cs).len() == cs.len(),
        forall|i: int| 0 <= i < cs.len() ==> #[trigger] simplified_forest(cs)[i] == simplified_shape(cs[i]),
    decreases cs.len(),
{
    if cs.len() > 0 {
        lemma_simplified_forest_shape(cs.drop_last());
        assert forall|i: int| 0 <= i < cs.len() implies #[trigger] simplified_forest(cs)[i] == simplified_shape(cs[i]) by {
            if i < cs.len() - 1 {
                assert(cs.drop_last()[i] == cs[i]);
            }
        }
    }
}

/// Flattening shapes that are all simplified gives simplified shapes none
/// of which is a node of the operator.
proof fn lemma_flattened_normal(op: PtOperator, ds: Seq<TreeShape>)
    requires
        forall|i: int| 0 <= i < ds.len() ==> normal_shape(#[trigger] ds[i]),
    ensures
        forall|i: int| 0 <= i < flattened(op, ds).len() ==> normal_shape(#[trigger] flattened(op, ds)[i]),
        forall|i: int| 0 <= i < flattened(op, ds).len() ==> !is_op_node(#[trigger] flattened(op, ds)[i], op),
    decreases ds.len(),
{
    if ds.len() > 0 {
        let d = ds.drop_last();
        assert forall|i: int| 0 <= i < d.len() implies normal_shape(#[trigger] d[i]) by {
            assert(d[i] == ds[i]);
        }
        lemma_flattened_normal(op, d);
        let rest = flattened(op, d);
        let last = ds.last();
        assert(normal_shape(ds[ds.len() - 1]));
        match last {
            TreeShape::Node(op2, gs) => {
                if op2 == op {
                    lemma_normal_forest_all(gs);
                    let f = rest + gs;
                    assert forall|i: int| 0 <= i < f.len() implies normal_shape(#[trigger] f[i]) && !is_op_node(f[i], op) by {
                        if i >= rest.len() {
                            assert(f[i] == gs[i - rest.len()]);
                        }
                    }
                } else {
                    let f = rest.push(last);
                    assert forall|i: int| 0 <= i < f.len() implies normal_shape(#[trigger] f[i]) && !is_op_node(f[i], op) by {
                        if i == rest.len() {
                            assert(f[i] == last);
                        }
                    }
                }
            },
            TreeShape::Leaf(_) => {
                let f = rest.push(last);
                assert forall|i: int| 0 <= i < f.len() implies normal_shape(#[trigger] f[i]) && !is_op_node(f[i], op) by {
                    if i == rest.len() {
                        assert(f[i] == last);
                    }
                }
            },
        }
    }
}

/// Flattening shapes none of which is a node of the operator changes nothing.
proof fn lemma_flattened_none(op: PtOperator, ds: Seq<TreeShape>)
    requires
        forall|i: int| 0 <= i < ds.len() ==> !is_op_node(#[trigger] ds[i], op),
    ensures
        flattened(op, ds) == ds,
    decreases ds.len(),
{
    if ds.len() > 0 {
        let d = ds.drop_last();
        assert forall|i: int| 0 <= i < d.len() implies !is_op_node(#[trigger] d[i], op) by {
            assert(d[i] == ds[i]);
        }
        lemma_flattened_none(op, d);
        assert(!is_op_node(ds[ds.len() - 1], op));
        assert(d.push(ds.last()) =~= ds);
    }
}

/// What simplification gives is simplified.
pub proof fn lemma_simplified_is_normal(s: TreeShape)
    ensures
        normal_shape(simplified_shape(s)),
    decreases s,
{
    match s {
        TreeShape::Leaf(_) => {},
        TreeShape::Node(op, cs) => {
            lemma_simplified_forest_shape(cs);
            let sf = simplified_forest(cs);
            assert forall|i: int| 0 <= i < sf.len() implies normal_shape(#[trigger] sf[i]) by {
                assert(sf[i] == simplified_shape(cs[i]));
                lemma_simplified_is_normal(cs[i]);
            }
            lemma_flattened_normal(op, sf);
            let flat = flattened(op, sf);
            if flat.len() != 1 {
                lemma_normal_forest_all(flat);
            }
        },
    }
}

/// A simplified shape is left as it is.
pub proof fn lemma_normal_fixed(s: TreeShape)
    requires
        normal_shape(s),
    ensures
        simplified_shape(s) == s,
    decreases s,
{
    match s {
        TreeShape::Leaf(_) => {},
        TreeShape::Node(op, cs) => {
            lemma_normal_forest_all(cs);
            lemma_simplified_forest_shape(cs);
            assert forall|i: int| 0 <= i < cs.len() implies #[trigger] simplified_forest(cs)[i] == cs[i] by {
                lemma_normal_fixed(cs[i]);
            }
            assert(simplified_forest(cs) =~= cs);
            lemma_flattened_none(op, cs);
        },
    }
}

/// Simplifying twice gives what simplifying once gives; no node of the
/// result has exactly one child or a child with its own operator.
pub proof fn lemma_simplify_idempotent(s: TreeShape)
    ensures
        simplified_shape(simplified_shape(s)) == simplified_shape(s),
        normal_shape(simplified_shape(s)),
{
    lemma_simplified_is_normal(s);
    lemma_normal_fixed(simplified_shape(s));
}

} // verus!
