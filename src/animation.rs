use vstd::prelude::*;

use crate::graph::{nodes_of, SceneGraph, Step};

verus! {

/// What a node does each frame, chosen by its name, before world
/// transforms are recomputed.
#[derive(PartialEq, Eq, Structural, Clone, Copy, Debug)]
pub enum Behavior {
    /// `"main"`: spins about the Y axis at a constant rate.
    MainRotor,
    /// `"tail"`: spins about the X axis at a constant rate.
    TailRotor,
    /// `"zombie"`: follows the periodic wander path, shifted by a phase.
    Wander,
    /// Any other name: position and rotation are left as they are.
    Idle,
}

/// The behavior selected by a node name.
pub open spec fn behavior_for(name: Seq<char>) -> Behavior {
    if name == "main"@ {
        Behavior::MainRotor
    } else if name == "tail"@ {
        Behavior::TailRotor
    } else if name == "zombie"@ {
        Behavior::Wander
    } else {
        Behavior::Idle
    }
}

/// A name other than `"main"`, `"tail"` and `"zombie"` selects no
/// behavior: an animation pass leaves that node's position and rotation as
/// they are.
pub proof fn lemma_unknown_name_is_idle(name: Seq<char>)
    requires
        name != "main"@,
        name != "tail"@,
        name != "zombie"@,
    ensures
        behavior_for(name) == Behavior::Idle,
{
}

/// The behavior selected by a node name.
pub fn behavior_of(name: &String) -> (r: Behavior)
    ensures
        r == behavior_for(name@),
{
    let main: String = "main".to_owned();
    let tail: String = "tail".to_owned();
    let zombie: String = "zombie".to_owned();
    if *name == main {
        Behavior::MainRotor
    } else if *name == tail {
        Behavior::TailRotor
    } else if *name == zombie {
        Behavior::Wander
    } else {
        Behavior::Idle
    }
}

/// One node's share of an animation pass.
#[derive(PartialEq, Eq, Structural, Clone, Copy, Debug)]
pub struct Animation {
    pub node: usize,
    pub behavior: Behavior,
}

/// The animation pass over the subtree of `root`: every node, depth first,
/// with the behavior its name selects. Every node is listed, whatever it
/// does and whether or not it carries geometry, so that the children of an
/// idle node are animated too.
pub fn animation_plan(graph: &SceneGraph, root: usize) -> (r: Vec<Animation>)
    requires
        graph.wf(),
        root < graph.node_count(),
    ensures
        r@.len() == graph.subtree(root as int).len(),
        forall|i: int|
            0 <= i < r@.len() ==> #[trigger] r@[i] == (Animation {
                node: graph.subtree(root as int)[i],
                behavior: behavior_for(graph.node_at(graph.subtree(root as int)[i] as int).name@),
            }),
{
    let steps: Vec<Step> = graph.propagation_plan(root);
    let ghost order = nodes_of(steps@);
    proof {
        graph.lemma_subtree_in_bounds(root as int);
    }
    let mut out: Vec<Animation> = Vec::new();
    let mut i: usize = 0;
    while i < steps.len()
        invariant
            graph.wf(),
            root < graph.node_count(),
            order == nodes_of(steps@),
            order == graph.subtree(root as int),
            forall|j: int| 0 <= j < order.len() ==> #[trigger] order[j] < graph.node_count(),
            i <= steps@.len(),
            out@.len() == i,
            forall|j: int|
                0 <= j < i ==> #[trigger] out@[j] == (Animation {
                    node: order[j],
                    behavior: behavior_for(graph.node_at(order[j] as int).name@),
                }),
        decreases steps@.len() - i,
    {
        let n: usize = steps[i].node;
        assert(order[i as int] == n);
        let behavior = behavior_of(&graph.node(n).name);
        out.push(Animation { node: n, behavior });
        i = i + 1;
    }
    out
}

} // verus!
