//! Directly-follows graphs as graphviz DOT text.

use vstd::prelude::*;
use crate::discovery::dfg::DFGResult;
use crate::text::{decimal, distinct_in_order, distinct_names, usize_to_decimal};

verus! {

/// The names of a list of (name, count) entries.
pub open spec fn entry_names(v: Seq<(Seq<char>, usize)>) -> Seq<Seq<char>> {
    v.map_values(|e: (Seq<char>, usize)| e.0)
}

/// The sources and targets of edges, in order.
pub open spec fn edge_ends(es: Seq<((Seq<char>, Seq<char>), usize)>) -> Seq<Seq<char>>
    decreases es.len(),
{
    if es.len() == 0 {
        Seq::empty()
    } else {
        edge_ends(es.drop_last()) + seq![es.last().0.0, es.last().0.1]
    }
}

/// The activities a DFG mentions, each once, in order of first mention:
/// start activities, end activities, activities, then edge ends.
pub open spec fn dot_nodes(dfg: &DFGResult) -> Seq<Seq<char>> {
    distinct_in_order(
        entry_names(dfg.start_activities.deep_view()) + entry_names(dfg.end_activities.deep_view())
            + entry_names(dfg.activities.deep_view()) + edge_ends(dfg.edges.deep_view()),
    )
}

/// One node line per name.
pub open spec fn node_lines(ns: Seq<Seq<char>>) -> Seq<char>
    decreases ns.len(),
{
    if ns.len() == 0 {
        Seq::empty()
    } else {
        node_lines(ns.drop_last()) + "  \""@ + ns.last() + "\";\n"@
    }
}

/// One edge line per edge, labelled with its count.
pub open spec fn edge_lines(es: Seq<((Seq<char>, Seq<char>), usize)>) -> Seq<char>
    decreases es.len(),
{
    if es.len() == 0 {
        Seq::empty()
    } else {
        edge_lines(es.drop_last()) + "  \""@ + es.last().0.0 + "\" -> \""@ + es.last().0.1 + "\" [label=\""@
            + decimal(es.last().1 as nat) + "\"];\n"@
    }
}

/// The DOT text of a DFG.
pub open spec fn dot_text(dfg: &DFGResult) -> Seq<char> {
    "digraph DFG {\n"@ + "  rankdir=LR;\n"@ + "  node [shape=box];\n\n"@ + node_lines(dot_nodes(dfg)) + "\n"@
        + edge_lines(dfg.edges.deep_view()) + "}\n"@
}

fn push_entry_names(out: &mut Vec<String>, v: &Vec<(String, usize)>)
    ensures
        final(out).deep_view() == old(out).deep_view() + entry_names(v.deep_view()),
{
    let ghost start = out.deep_view();
    let ghost vv = v.deep_view();
    for i in 0..v.len()
        invariant
            vv == v.deep_view(),
            out.deep_view() == start + entry_names(vv.take(i as int)),
    {
        proof {
            assert(vv[i as int] == (v@[i as int].0@, v@[i as int].1));
        }
        let c = v[i].0.clone();
        let ghost before = out.deep_view();
        out.push(c);
        proof {
            assert(out.deep_view() =~= before.push(vv[i as int].0));
            assert(entry_names(vv.take(i + 1)) =~= entry_names(vv.take(i as int)).push(vv[i as int].0));
            assert(out.deep_view() =~= start + entry_names(vv.take(i + 1)));
        }
    }
    proof {
        assert(vv.take(vv.len() as int) =~= vv);
    }
}

/// Serialize a DFG to a simple graphviz DOT format, as `dot_text` states
/// it.
pub fn dfg_to_dot(dfg: &DFGResult) -> (res: String)
    ensures
        res@ == dot_text(dfg),
{
    let mut all: Vec<String> = Vec::new();
    push_entry_names(&mut all, &dfg.start_activities);
    push_entry_names(&mut all, &dfg.end_activities);
    push_entry_names(&mut all, &dfg.activities);
    let ghost base = all.deep_view();
    let ghost ev = dfg.edges.deep_view();
    for i in 0..dfg.edges.len()
        invariant
            ev == dfg.edges.deep_view(),
            all.deep_view() == base + edge_ends(ev.take(i as int)),
    {
        proof {
            assert(ev[i as int] == dfg.edges@[i as int].deep_view());
            assert(ev.take(i + 1).drop_last() =~= ev.take(i as int));
        }
        let src = dfg.edges[i].source.clone();
        let tgt = dfg.edges[i].target.clone();
        let ghost before = all.deep_view();
        all.push(src);
        all.push(tgt);
        proof {
            assert(all.deep_view() =~= before + seq![ev[i as int].0.0, ev[i as int].0.1]);
            assert(ev.take(i + 1).last() == ev[i as int]);
            assert(all.deep_view() =~= base + edge_ends(ev.take(i + 1)));
        }
    }
    proof {
        assert(ev.take(ev.len() as int) =~= ev);
        assert(all.deep_view() =~= entry_names(dfg.start_activities.deep_view()) + entry_names(dfg.end_activities.deep_view())
            + entry_names(dfg.activities.deep_view()) + edge_ends(dfg.edges.deep_view()));
    }
    let nodes = distinct_names(&all);
    let mut dot = "digraph DFG {\n".to_owned();
    dot.append("  rankdir=LR;\n");
    dot.append("  node [shape=box];\n\n");
    let ghost head = dot@;
    let ghost nv = nodes.deep_view();
    for i in 0..nodes.len()
        invariant
            nv == nodes.deep_view(),
            dot@ == head + node_lines(nv.take(i as int)),
    {
        proof {
            assert(nv[i as int] == nodes@[i as int]@);
            assert(nv.take(i + 1).drop_last() =~= nv.take(i as int));
        }
        dot.append("  \"");
        dot.append(nodes[i].as_str());
        dot.append("\";\n");
        proof {
            assert(dot@ =~= head + node_lines(nv.take(i + 1)));
        }
    }
    proof {
        assert(nv.take(nv.len() as int) =~= nv);
    }
    dot.append("\n");
    let ghost head = dot@;
    for i in 0..dfg.edges.len()
        invariant
            ev == dfg.edges.deep_view(),
            dot@ == head + edge_lines(ev.take(i as int)),
    {
        let e = &dfg.edges[i];
        proof {
            assert(ev[i as int] == e.deep_view());
            assert(ev.take(i + 1).drop_last() =~= ev.take(i as int));
        }
        let count = usize_to_decimal(e.count);
        dot.append("  \"");
        dot.append(e.source.as_str());
        dot.append("\" -> \"");
        dot.append(e.target.as_str());
        dot.append("\" [label=\"");
        dot.append(count.as_str());
        dot.append("\"];\n");
        proof {
            assert(dot@ =~= head + edge_lines(ev.take(i + 1)));
        }
    }
    proof {
        assert(ev.take(ev.len() as int) =~= ev);
    }
    dot.append("}\n");
    proof {
        assert(dot@ =~= dot_text(dfg));
    }
    dot
}

} // verus!
