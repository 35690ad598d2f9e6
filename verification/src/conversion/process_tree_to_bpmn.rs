//! Process tree to BPMN 2.0 XML: leaves become tasks (silent ones service
//! tasks), sequences chained flows, choices exclusive gateways, parallel
//! nodes parallel gateways, and loops an exclusive gateway pair with a back
//! flow through the redo part.

use vstd::prelude::*;
use crate::process_tree::{
    ProcessTree, PtOperator, tree_size, forest_size, loops_have_body, forest_loops_have_body,
};
use crate::text::{concat, decimal, usize_to_decimal, xml_escaped, escape_xml};

verus! {

/// A document being written: the number of ids handed out, the element
/// lines and the sequence-flow lines.
pub type Draft = (nat, Seq<Seq<char>>, Seq<Seq<char>>);

/// The n-th id handed out, with the given prefix: `prefix_n`.
pub open spec fn fresh(prefix: Seq<char>, n: nat) -> Seq<char> {
    prefix + "_"@ + decimal(n)
}

/// Hands out an id and adds the element line that declares it.
pub open spec fn with_element(d: Draft, line: Seq<char>) -> Draft {
    (d.0 + 1, d.1.push(line), d.2)
}

/// The line of the k-th sequence flow.
pub open spec fn flow_line(k: nat, src: Seq<char>, tgt: Seq<char>) -> Seq<char> {
    "    <sequenceFlow id=\"flow_"@ + decimal(k) + "\" sourceRef=\""@ + src + "\" targetRef=\""@ + tgt
        + "\"/>"@
}

/// Adds a sequence flow.
pub open spec fn with_flow(d: Draft, src: Seq<char>, tgt: Seq<char>) -> Draft {
    (d.0, d.1, d.2.push(flow_line(d.2.len() + 1, src, tgt)))
}

pub open spec fn task_line(id: Seq<char>, name: Seq<char>) -> Seq<char> {
    "    <task id=\""@ + id + "\" name=\""@ + xml_escaped(name) + "\"/>"@
}

pub open spec fn silent_line(id: Seq<char>) -> Seq<char> {
    "    <serviceTask id=\""@ + id + "\" name=\"\" pm4py:silent=\"true\"/>"@
}

pub open spec fn connector_line(id: Seq<char>) -> Seq<char> {
    "    <serviceTask id=\""@ + id + "\" name=\"\" pm4py:connector=\"true\"/>"@
}

pub open spec fn gateway_line(kind: Seq<char>, id: Seq<char>, direction: Seq<char>) -> Seq<char> {
    "    <"@ + kind + " id=\""@ + id + "\" gatewayDirection=\""@ + direction + "\"/>"@
}

/// A task (or, for a silent leaf, a silent service task) between `entry`
/// and `exit`.
pub open spec fn leaf_draft(label: Option<Seq<char>>, entry: Seq<char>, exit: Seq<char>, d: Draft) -> Draft {
    let (id, line) = match label {
        Some(l) => (fresh("task"@, d.0 + 1), task_line(fresh("task"@, d.0 + 1), l)),
        None => (fresh("tau"@, d.0 + 1), silent_line(fresh("tau"@, d.0 + 1))),
    };
    with_flow(with_flow(with_element(d, line), entry, id), id, exit)
}

/// A gateway pair: `kind` split and join named with the given prefixes,
/// `entry` flowing into the split and the join into `exit`.
pub open spec fn gateway_pair(kind: Seq<char>, split: Seq<char>, join: Seq<char>, entry: Seq<char>, exit: Seq<char>, d: Draft) -> Draft {
    let d1 = with_element(d, gateway_line(kind, fresh(split, d.0 + 1), "Diverging"@));
    let d2 = with_element(d1, gateway_line(kind, fresh(join, d1.0 + 1), "Converging"@));
    with_flow(with_flow(d2, entry, fresh(split, d.0 + 1)), fresh(join, d1.0 + 1), exit)
}

/// The document after writing tree `t` between the connection points
/// `entry` and `exit`.
pub open spec fn draft_tree(t: ProcessTree, entry: Seq<char>, exit: Seq<char>, d: Draft) -> Draft
    decreases t, 0nat,
{
    proof {
        assert(decreases_to!(t => t.children));
        assert(decreases_to!(t.children => t.children@));
    }
    match t.operator {
        None => leaf_draft(match t.label { Some(l) => Some(l@), None => None }, entry, exit, d),
        Some(PtOperator::Sequence) => {
            if t.children@.len() == 0 {
                leaf_draft(None, entry, exit, d)
            } else {
                draft_chain(t.children@, entry, exit, d)
            }
        },
        Some(PtOperator::Xor) => {
            let d1 = gateway_pair("exclusiveGateway"@, "xor_split"@, "xor_join"@, entry, exit, d);
            draft_branches(t.children@, fresh("xor_split"@, d.0 + 1), fresh("xor_join"@, d.0 + 2), d1)
        },
        Some(PtOperator::Parallel) => {
            let d1 = gateway_pair("parallelGateway"@, "and_split"@, "and_join"@, entry, exit, d);
            draft_branches(t.children@, fresh("and_split"@, d.0 + 1), fresh("and_join"@, d.0 + 2), d1)
        },
        Some(PtOperator::Loop) => {
            if t.children@.len() == 0 {
                d
            } else {
                let check = fresh("loop_check"@, d.0 + 1);
                let d1 = with_element(d, gateway_line("exclusiveGateway"@, check, "Converging"@));
                let decide = fresh("loop_decide"@, d1.0 + 1);
                let d2 = with_element(d1, gateway_line("exclusiveGateway"@, decide, "Diverging"@));
                let do_entry = fresh("p"@, d2.0 + 1);
                let d3 = with_element(d2, connector_line(do_entry));
                let do_exit = fresh("p"@, d3.0 + 1);
                let d4 = with_element(d3, connector_line(do_exit));
                let d5 = with_flow(with_flow(d4, entry, check), check, do_entry);
                let d6 = draft_tree(t.children@[0], do_entry, do_exit, d5);
                let d7 = with_flow(with_flow(d6, do_exit, decide), decide, exit);
                if t.children@.len() > 1 {
                    let redo_entry = fresh("p"@, d7.0 + 1);
                    let d8 = with_element(d7, connector_line(redo_entry));
                    let redo_exit = fresh("p"@, d8.0 + 1);
                    let d9 = with_element(d8, connector_line(redo_exit));
                    let d10 = with_flow(d9, decide, redo_entry);
                    let d11 = draft_tree(t.children@[1], redo_entry, redo_exit, d10);
                    with_flow(d11, redo_exit, check)
                } else {
                    d7
                }
            }
        },
    }
}

/// The children of a choice or parallel node, each between its own pair of
/// connectors hanging off `split` and `join`.
pub open spec fn draft_branches(cs: Seq<ProcessTree>, split: Seq<char>, join: Seq<char>, d: Draft) -> Draft
    decreases cs, 1nat,
{
    if cs.len() == 0 {
        d
    } else {
        let ce = fresh("p"@, d.0 + 1);
        let d1 = with_element(d, connector_line(ce));
        let cx = fresh("p"@, d1.0 + 1);
        let d2 = with_element(d1, connector_line(cx));
        let d3 = with_flow(with_flow(d2, split, ce), cx, join);
        draft_branches(cs.drop_first(), split, join, draft_tree(cs[0], ce, cx, d3))
    }
}

/// The children of a sequence, chained from `prev` to `exit` through a new
/// connector between consecutive children.
pub open spec fn draft_chain(cs: Seq<ProcessTree>, prev: Seq<char>, exit: Seq<char>, d: Draft) -> Draft
    decreases cs, 1nat,
{
    if cs.len() == 0 {
        d
    } else if cs.len() == 1 {
        draft_tree(cs[0], prev, exit, d)
    } else {
        let p = fresh("p"@, d.0 + 1);
        let d1 = with_element(d, connector_line(p));
        draft_chain(cs.drop_first(), p, exit, draft_tree(cs[0], prev, p, d1))
    }
}

/// The lines separated by line breaks.
pub open spec fn join_lines(ls: Seq<Seq<char>>) -> Seq<char>
    decreases ls.len(),
{
    if ls.len() == 0 {
        Seq::empty()
    } else if ls.len() == 1 {
        ls[0]
    } else {
        join_lines(ls.drop_last()) + "\n"@ + ls.last()
    }
}

/// The lines before the elements of the process.
pub open spec fn header_lines() -> Seq<Seq<char>> {
    seq![
        "<?xml version=\"1.0\" encoding=\"UTF-8\"?>"@,
        "<definitions"@,
        "  xmlns=\"http://www.omg.org/spec/BPMN/20100524/MODEL\""@,
        "  xmlns:xsi=\"http://www.w3.org/2001/XMLSchema-instance\""@,
        "  xmlns:pm4py=\"http://pm4py.org/bpmn-ext\""@,
        "  targetNamespace=\"http://pm4py.org/powl\""@,
        "  exporter=\"pm4py-pm4wasm\""@,
        "  exporterVersion=\"0.1.0\">"@,
        "  <process id=\"process_1\" isExecutable=\"false\">"@,
        "    <startEvent id=\"startEvent_1\"/>"@,
        "    <endEvent id=\"endEvent_1\"/>"@,
    ]
}

/// The lines after the flows.
pub open spec fn footer_lines() -> Seq<Seq<char>> {
    seq!["  </process>"@, "</definitions>"@]
}

/// The document of a whole tree: connectors `p_1` and `p_2` around the
/// tree, the start event flowing into the first and the second into the
/// end event.
pub open spec fn tree_document(t: ProcessTree) -> Draft {
    let d0: Draft = (0, Seq::empty(), Seq::empty());
    let d1 = with_element(d0, connector_line(fresh("p"@, 1)));
    let d2 = with_element(d1, connector_line(fresh("p"@, 2)));
    let d3 = with_flow(d2, "startEvent_1"@, fresh("p"@, 1));
    with_flow(draft_tree(t, fresh("p"@, 1), fresh("p"@, 2), d3), fresh("p"@, 2), "endEvent_1"@)
}

/// The BPMN XML of a tree.
pub open spec fn bpmn_xml(t: ProcessTree) -> Seq<char> {
    let d = tree_document(t);
    join_lines(header_lines() + d.1 + d.2 + footer_lines())
}

fn join4(a: &str, b: &str, c: &str, d: &str) -> (res: String)
    ensures
        res@ == a@ + b@ + c@ + d@,
{
    let ab = concat(a, b);
    let abc = concat(ab.as_str(), c);
    concat(abc.as_str(), d)
}

fn task_line_of(id: &str, name: &str) -> (res: String)
    ensures
        res@ == task_line(id@, name@),
{
    let esc = escape_xml(name);
    let head = join4("    <task id=\"", id, "\" name=\"", esc.as_str());
    concat(head.as_str(), "\"/>")
}

fn silent_line_of(id: &str) -> (res: String)
    ensures
        res@ == silent_line(id@),
{
    let head = concat("    <serviceTask id=\"", id);
    concat(head.as_str(), "\" name=\"\" pm4py:silent=\"true\"/>")
}

fn connector_line_of(id: &str) -> (res: String)
    ensures
        res@ == connector_line(id@),
{
    let head = concat("    <serviceTask id=\"", id);
    concat(head.as_str(), "\" name=\"\" pm4py:connector=\"true\"/>")
}

fn gateway_line_of(kind: &str, id: &str, direction: &str) -> (res: String)
    ensures
        res@ == gateway_line(kind@, id@, direction@),
{
    let head = join4("    <", kind, " id=\"", id);
    let mid = join4(head.as_str(), "\" gatewayDirection=\"", direction, "\"/>");
    mid
}

fn flow_line_of(k: usize, src: &str, tgt: &str) -> (res: String)
    ensures
        res@ == flow_line(k as nat, src@, tgt@),
{
    let num = usize_to_decimal(k);
    let head = join4("    <sequenceFlow id=\"flow_", num.as_str(), "\" sourceRef=\"", src);
    join4(head.as_str(), "\" targetRef=\"", tgt, "\"/>")
}

fn id_text(prefix: &str, n: u32) -> (res: String)
    ensures
        res@ == fresh(prefix@, n as nat),
{
    let num = usize_to_decimal(n as usize);
    let head = concat(prefix, "_");
    concat(head.as_str(), num.as_str())
}

/// The document being written: ids handed out, element and flow lines.
struct Builder {
    ids: u32,
    elements: Vec<String>,
    flows: Vec<String>,
}

impl Builder {
    spec fn draft(&self) -> Draft {
        (self.ids as nat, self.elements.deep_view(), self.flows.deep_view())
    }

    /// The id that the next element will declare.
    fn next_id(&self, prefix: &str) -> (res: String)
        requires
            self.ids < u32::MAX,
        ensures
            res@ == fresh(prefix@, (self.ids + 1) as nat),
    {
        id_text(prefix, self.ids + 1)
    }

    fn element(&mut self, line: String)
        requires
            old(self).ids < u32::MAX,
        ensures
            final(self).draft() == with_element(old(self).draft(), line@),
            final(self).ids == old(self).ids + 1,
            final(self).flows@.len() == old(self).flows@.len(),
    {
        self.ids = self.ids + 1;
        self.elements.push(line);
        proof {
            assert(self.elements.deep_view() =~= old(self).elements.deep_view().push(line@));
        }
    }

    fn flow(&mut self, src: &str, tgt: &str)
        requires
            old(self).flows@.len() < u32::MAX,
        ensures
            final(self).draft() == with_flow(old(self).draft(), src@, tgt@),
            final(self).ids == old(self).ids,
            final(self).flows@.len() == old(self).flows@.len() + 1,
    {
        let k = self.flows.len() + 1;
        let line = flow_line_of(k, src, tgt);
        self.flows.push(line);
        proof {
            assert(self.flows.deep_view() =~= old(self).flows.deep_view().push(line@));
        }
    }

    fn leaf(&mut self, label: &Option<String>, entry: &str, exit: &str)
        requires
            old(self).ids < u32::MAX,
            old(self).flows@.len() + 2 < u32::MAX,
        ensures
            final(self).draft() == leaf_draft(
                match *label { Some(l) => Some(l@), None => None },
                entry@,
                exit@,
                old(self).draft(),
            ),
            final(self).ids == old(self).ids + 1,
            final(self).flows@.len() == old(self).flows@.len() + 2,
    {
        let id = match label {
            Some(l) => self.next_id("task"),
            None => self.next_id("tau"),
        };
        let line = match label {
            Some(l) => task_line_of(id.as_str(), l.as_str()),
            None => silent_line_of(id.as_str()),
        };
        self.element(line);
        self.flow(entry, id.as_str());
        self.flow(id.as_str(), exit);
    }
}

impl Builder {
    fn gateways(&mut self, kind: &str, split_prefix: &str, join_prefix: &str, entry: &str, exit: &str) -> (res: (String, String))
        requires
            old(self).ids + 2 < u32::MAX,
            old(self).flows@.len() + 2 < u32::MAX,
        ensures
            final(self).draft() == gateway_pair(kind@, split_prefix@, join_prefix@, entry@, exit@, old(self).draft()),
            res.0@ == fresh(split_prefix@, (old(self).ids + 1) as nat),
            res.1@ == fresh(join_prefix@, (old(self).ids + 2) as nat),
            final(self).ids == old(self).ids + 2,
            final(self).flows@.len() == old(self).flows@.len() + 2,
    {
        let split = self.next_id(split_prefix);
        let line = gateway_line_of(kind, split.as_str(), "Diverging");
        self.element(line);
        let join = self.next_id(join_prefix);
        let line = gateway_line_of(kind, join.as_str(), "Converging");
        self.element(line);
        self.flow(entry, split.as_str());
        self.flow(join.as_str(), exit);
        (split, join)
    }

    fn connector(&mut self) -> (res: String)
        requires
            old(self).ids < u32::MAX,
        ensures
            res@ == fresh("p"@, (old(self).ids + 1) as nat),
            final(self).draft() == with_element(old(self).draft(), connector_line(res@)),
            final(self).ids == old(self).ids + 1,
            final(self).flows@.len() == old(self).flows@.len(),
    {
        let p = self.next_id("p");
        let line = connector_line_of(p.as_str());
        self.element(line);
        p
    }

    /// Writes `t` between `entry` and `exit`.
    fn convert(&mut self, t: &ProcessTree, entry: &str, exit: &str)
        requires
            loops_have_body(*t),
            old(self).ids + 8 * tree_size(*t) <= u32::MAX + 3,
            old(self).flows@.len() + 8 * tree_size(*t) <= u32::MAX + 3,
        ensures
            final(self).draft() == draft_tree(*t, entry@, exit@, old(self).draft()),
            final(self).ids + 3 <= old(self).ids + 8 * tree_size(*t),
            final(self).flows@.len() + 3 <= old(self).flows@.len() + 8 * tree_size(*t),
        decreases t, 0nat,
    {
        let ghost cs = t.children@;
        proof {
            assert(decreases_to!(t => t.children));
        }
        match t.operator {
            None => {
                self.leaf(&t.label, entry, exit);
            },
            Some(PtOperator::Sequence) => {
                if t.children.len() == 0 {
                    self.leaf(&None, entry, exit);
                } else {
                    self.chain(&t.children, entry, exit);
                }
            },
            Some(PtOperator::Xor) => {
                let (split, join) = self.gateways("exclusiveGateway", "xor_split", "xor_join", entry, exit);
                self.branches(&t.children, split.as_str(), join.as_str());
            },
            Some(PtOperator::Parallel) => {
                let (split, join) = self.gateways("parallelGateway", "and_split", "and_join", entry, exit);
                self.branches(&t.children, split.as_str(), join.as_str());
            },
            Some(PtOperator::Loop) => {
                proof {
                    assert(cs.len() > 0);
                    assert(forest_size(cs) >= tree_size(cs[0]));
                    assert(loops_have_body(cs[0]));
                    if cs.len() > 1 {
                        assert(cs.drop_first()[0] == cs[1]);
                        assert(forest_size(cs.drop_first()) >= tree_size(cs[1]));
                        assert(forest_size(cs) >= tree_size(cs[0]) + tree_size(cs[1]));
                        assert(forest_loops_have_body(cs.drop_first()));
                        assert(loops_have_body(cs[1]));
                    }
                }
                let check = self.next_id("loop_check");
                let line = gateway_line_of("exclusiveGateway", check.as_str(), "Converging");
                self.element(line);
                let decide = self.next_id("loop_decide");
                let line = gateway_line_of("exclusiveGateway", decide.as_str(), "Diverging");
                self.element(line);
                let do_entry = self.connector();
                let do_exit = self.connector();
                self.flow(entry, check.as_str());
                self.flow(check.as_str(), do_entry.as_str());
                self.convert(&t.children[0], do_entry.as_str(), do_exit.as_str());
                self.flow(do_exit.as_str(), decide.as_str());
                self.flow(decide.as_str(), exit);
                if t.children.len() > 1 {
                    let redo_entry = self.connector();
                    let redo_exit = self.connector();
                    self.flow(decide.as_str(), redo_entry.as_str());
                    self.convert(&t.children[1], redo_entry.as_str(), redo_exit.as_str());
                    self.flow(redo_exit.as_str(), check.as_str());
                }
            },
        }
    }

    /// Writes each child of a choice or parallel node between its own pair
    /// of connectors hanging off `split` and `join`.
    fn branches(&mut self, cs: &Vec<ProcessTree>, split: &str, join: &str)
        requires
            forest_loops_have_body(cs@),
            old(self).ids + 8 * forest_size(cs@) <= u32::MAX + 1,
            old(self).flows@.len() + 8 * forest_size(cs@) <= u32::MAX + 1,
        ensures
            final(self).draft() == draft_branches(cs@, split@, join@, old(self).draft()),
            final(self).ids <= old(self).ids + 8 * forest_size(cs@),
            final(self).flows@.len() <= old(self).flows@.len() + 8 * forest_size(cs@),
        decreases cs, 1nat,
    {
        let ghost d0 = self.draft();
        let ghost ids0 = self.ids;
        let ghost fl0 = self.flows@.len();
        let ghost total = forest_size(cs@);
        proof {
            assert(cs@.skip(0) =~= cs@);
        }
        for i in 0..cs.len()
            invariant
                draft_branches(cs@, split@, join@, d0) == draft_branches(cs@.skip(i as int), split@, join@, self.draft()),
                forest_loops_have_body(cs@.skip(i as int)),
                self.ids + 8 * forest_size(cs@.skip(i as int)) <= ids0 + 8 * total,
                self.flows@.len() + 8 * forest_size(cs@.skip(i as int)) <= fl0 + 8 * total,
                ids0 + 8 * total <= u32::MAX + 1,
                fl0 + 8 * total <= u32::MAX + 1,
        {
            let ghost rest = cs@.skip(i as int);
            proof {
                assert(rest[0] == cs@[i as int]);
                assert(rest.drop_first() =~= cs@.skip(i + 1));
                assert(decreases_to!(cs => cs[i as int]));
                assert(forest_size(rest) == tree_size(rest[0]) + forest_size(rest.drop_first()));
                assert(tree_size(rest[0]) >= 1);
                assert(loops_have_body(rest[0]));
            }
            let ce = self.connector();
            let cx = self.connector();
            self.flow(split, ce.as_str());
            self.flow(cx.as_str(), join);
            self.convert(&cs[i], ce.as_str(), cx.as_str());
        }
        proof {
            assert(cs@.skip(cs@.len() as int) =~= Seq::<ProcessTree>::empty());
        }
    }

    /// Chains the children of a sequence from `entry` to `exit`.
    fn chain(&mut self, cs: &Vec<ProcessTree>, entry: &str, exit: &str)
        requires
            cs@.len() > 0,
            forest_loops_have_body(cs@),
            old(self).ids + 8 * forest_size(cs@) <= u32::MAX + 2,
            old(self).flows@.len() + 8 * forest_size(cs@) <= u32::MAX + 2,
        ensures
            final(self).draft() == draft_chain(cs@, entry@, exit@, old(self).draft()),
            final(self).ids <= old(self).ids + 8 * forest_size(cs@),
            final(self).flows@.len() <= old(self).flows@.len() + 8 * forest_size(cs@),
        decreases cs, 1nat,
    {
        let ghost d0 = self.draft();
        let ghost ids0 = self.ids;
        let ghost fl0 = self.flows@.len();
        let ghost total = forest_size(cs@);
        let n = cs.len();
        let mut prev: String = entry.to_owned();
        proof {
            assert(cs@.skip(0) =~= cs@);
        }
        for i in 0..n
            invariant
                n == cs@.len(),
                n > 0,
                i < n ==> draft_chain(cs@, entry@, exit@, d0) == draft_chain(cs@.skip(i as int), prev@, exit@, self.draft()),
                i == n ==> self.draft() == draft_chain(cs@, entry@, exit@, d0),
                forest_loops_have_body(cs@.skip(i as int)),
                self.ids + 8 * forest_size(cs@.skip(i as int)) <= ids0 + 8 * total,
                self.flows@.len() + 8 * forest_size(cs@.skip(i as int)) <= fl0 + 8 * total,
                ids0 + 8 * total <= u32::MAX + 2,
                fl0 + 8 * total <= u32::MAX + 2,
        {
            let ghost rest = cs@.skip(i as int);
            proof {
                assert(rest[0] == cs@[i as int]);
                assert(rest.drop_first() =~= cs@.skip(i + 1));
                assert(decreases_to!(cs => cs[i as int]));
                assert(forest_size(rest) == tree_size(rest[0]) + forest_size(rest.drop_first()));
                assert(tree_size(rest[0]) >= 1);
                assert(loops_have_body(rest[0]));
            }
            let next = if i == n - 1 {
                exit.to_owned()
            } else {
                self.connector()
            };
            self.convert(&cs[i], prev.as_str(), next.as_str());
            prev = next;
            proof {
                if i + 1 == n {
                    assert(rest.len() == 1);
                }
            }
        }
        proof {
            assert(cs@.skip(n as int) =~= Seq::<ProcessTree>::empty());
        }
    }
}

fn join_with_breaks(ls: &Vec<String>) -> (res: String)
    ensures
        res@ == join_lines(ls.deep_view()),
{
    let ghost lv = ls.deep_view();
    let mut out = String::new();
    for i in 0..ls.len()
        invariant
            lv == ls.deep_view(),
            out@ == join_lines(lv.take(i as int)),
    {
        proof {
            assert(lv.take(i + 1).drop_last() =~= lv.take(i as int));
        }
        if i > 0 {
            out = concat(out.as_str(), "\n");
        }
        out = concat(out.as_str(), ls[i].as_str());
        proof {
            if i == 0 {
                assert(out@ =~= join_lines(lv.take(1)));
            }
        }
    }
    proof {
        assert(lv.take(lv.len() as int) =~= lv);
    }
    out
}

fn append_lines(lines: &mut Vec<String>, more: &Vec<String>)
    ensures
        final(lines).deep_view() == old(lines).deep_view() + more.deep_view(),
{
    let ghost l0 = lines.deep_view();
    for i in 0..more.len()
        invariant
            lines.deep_view() == l0 + more.deep_view().take(i as int),
    {
        let ghost before = lines.deep_view();
        lines.push(more[i].clone());
        proof {
            assert(lines.deep_view() =~= before.push(more.deep_view()[i as int]));
            assert(more.deep_view().take(i + 1) =~= more.deep_view().take(i as int).push(more.deep_view()[i as int]));
        }
    }
    proof {
        assert(more.deep_view().take(more.deep_view().len() as int) =~= more.deep_view());
    }
}

/// Converts a process tree to a BPMN 2.0 XML document, as `bpmn_xml`
/// states it. Every loop node needs a body, and the tree must be small
/// enough for its ids to be numbered in 32 bits.
pub fn process_tree_to_bpmn_xml(tree: &ProcessTree) -> (res: String)
    requires
        loops_have_body(*tree),
        8 * tree_size(*tree) <= u32::MAX,
    ensures
        res@ == bpmn_xml(*tree),
{
    let mut b = Builder { ids: 0, elements: Vec::new(), flows: Vec::new() };
    proof {
        assert(b.draft() =~= (0nat, Seq::<Seq<char>>::empty(), Seq::<Seq<char>>::empty()));
    }
    let proc_entry = b.connector();
    let proc_exit = b.connector();
    b.flow("startEvent_1", proc_entry.as_str());
    b.convert(tree, proc_entry.as_str(), proc_exit.as_str());
    b.flow(proc_exit.as_str(), "endEvent_1");
    let mut lines: Vec<String> = vec![
        "<?xml version=\"1.0\" encoding=\"UTF-8\"?>".to_owned(),
        "<definitions".to_owned(),
        "  xmlns=\"http://www.omg.org/spec/BPMN/20100524/MODEL\"".to_owned(),
        "  xmlns:xsi=\"http://www.w3.org/2001/XMLSchema-instance\"".to_owned(),
        "  xmlns:pm4py=\"http://pm4py.org/bpmn-ext\"".to_owned(),
        "  targetNamespace=\"http://pm4py.org/powl\"".to_owned(),
        "  exporter=\"pm4py-pm4wasm\"".to_owned(),
        "  exporterVersion=\"0.1.0\">".to_owned(),
        "  <process id=\"process_1\" isExecutable=\"false\">".to_owned(),
        "    <startEvent id=\"startEvent_1\"/>".to_owned(),
        "    <endEvent id=\"endEvent_1\"/>".to_owned(),
    ];
    proof {
        assert(lines.deep_view() =~= header_lines());
    }
    append_lines(&mut lines, &b.elements);
    append_lines(&mut lines, &b.flows);
    let footer: Vec<String> = vec!["  </process>".to_owned(), "</definitions>".to_owned()];
    proof {
        assert(footer.deep_view() =~= footer_lines());
    }
    append_lines(&mut lines, &footer);
    join_with_breaks(&lines)
}

} // verus!
