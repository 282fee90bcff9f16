use vstd::prelude::*;

use crate::graph::{nodes_of, SceneGraph, Step};

verus! {

/// One draw call of a frame: the node drawn, its geometry, and the number of
/// vertex indices submitted (three for each triangle).
#[derive(PartialEq, Eq, Structural, Clone, Copy, Debug)]
pub struct DrawCall {
    pub node: usize,
    pub vao_id: u32,
    pub vertex_count: i64,
}

/// Whether node `i` carries geometry.
pub open spec fn is_drawable(g: SceneGraph, i: int) -> bool {
    g.node_at(i).index_count > -1
}

/// The draw call issued for node `i`.
pub open spec fn draw_call_of(g: SceneGraph, i: usize) -> DrawCall {
    DrawCall {
        node: i,
        vao_id: g.node_at(i as int).vao_id,
        vertex_count: (3 * g.node_at(i as int).index_count) as i64,
    }
}

/// The draw calls for the nodes of `s`, in order, skipping the nodes
/// without geometry.
pub open spec fn draws(g: SceneGraph, s: Seq<usize>) -> Seq<DrawCall>
    decreases s.len(),
{
    if s.len() == 0 {
        Seq::empty()
    } else {
        let prev = draws(g, s.drop_last());
        if is_drawable(g, s.last() as int) {
            prev.push(draw_call_of(g, s.last()))
        } else {
            prev
        }
    }
}

/// The draw calls of one frame for the subtree of `root`: every node with
/// geometry, depth first in the order in which children were attached.
/// Nodes without geometry issue no call, but their children are still
/// visited.
pub fn draw_plan(graph: &SceneGraph, root: usize) -> (r: Vec<DrawCall>)
    requires
        graph.wf(),
        root < graph.node_count(),
    ensures
        r@ == draws(*graph, graph.subtree(root as int)),
{
    let steps: Vec<Step> = graph.propagation_plan(root);
    let ghost order = nodes_of(steps@);
    let mut out: Vec<DrawCall> = Vec::new();
    let mut i: usize = 0;
    while i < steps.len()
        invariant
            graph.wf(),
            order == nodes_of(steps@),
            root < graph.node_count(),
            order == graph.subtree(root as int),
            i <= steps@.len(),
            out@ == draws(*graph, order.take(i as int)),
        decreases steps@.len() - i,
    {
        let n: usize = steps[i].node;
        proof {
            assert(order.take(i + 1).drop_last() =~= order.take(i as int));
            assert(order.take(i + 1).last() == n);
            graph.lemma_subtree_in_bounds(root as int);
        }
        let node = graph.node(n);
        if node.index_count > -1 {
            let count: i64 = 3 * (node.index_count as i64);
            out.push(DrawCall { node: n, vao_id: node.vao_id, vertex_count: count });
        }
        i = i + 1;
    }
    proof {
        assert(order.take(steps@.len() as int) =~= order);
    }
    out
}

} // verus!
