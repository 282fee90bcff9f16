use vstd::prelude::*;

use crate::graph::SceneGraph;

verus! {

/// A mesh uploaded to the GPU: its vertex array and its number of
/// triangles.
#[derive(PartialEq, Eq, Structural, Clone, Copy, Debug)]
pub struct Geometry {
    pub vao_id: u32,
    pub index_count: i32,
}

/// The four uploaded parts of a helicopter.
#[derive(PartialEq, Eq, Structural, Clone, Copy, Debug)]
pub struct HelicopterGeometry {
    pub body: Geometry,
    pub main_rotor: Geometry,
    pub tail_rotor: Geometry,
    pub door: Geometry,
}

/// The nodes of a helicopter in its scene graph.
#[derive(PartialEq, Eq, Structural, Clone, Copy, Debug)]
pub struct HelicopterNodes {
    pub body: usize,
    pub main_rotor: usize,
    pub tail_rotor: usize,
    pub door: usize,
}

/// Node `i` of `g` is a detached leaf made from `geo` and named `name`.
pub open spec fn is_leaf_of(g: SceneGraph, i: int, geo: Geometry, name: Seq<char>) -> bool {
    &&& g.node_at(i).vao_id == geo.vao_id
    &&& g.node_at(i).index_count == geo.index_count
    &&& g.node_at(i).name@ == name
    &&& g.children(i) == Seq::<usize>::empty()
}

/// The helicopter `h` stands in `g` as the four nodes from index `n` on: the
/// body, named `body_name`, whose children are the main rotor, the tail
/// rotor and the door, in that order.
pub open spec fn is_helicopter(
    g: SceneGraph,
    n: nat,
    h: HelicopterNodes,
    geo: HelicopterGeometry,
    body_name: Seq<char>,
) -> bool {
    &&& n + 4 <= g.node_count()
    &&& h.body == n
    &&& h.main_rotor == n + 1
    &&& h.tail_rotor == n + 2
    &&& h.door == n + 3
    &&& g.node_at(n as int).vao_id == geo.body.vao_id
    &&& g.node_at(n as int).index_count == geo.body.index_count
    &&& g.node_at(n as int).name@ == body_name
    &&& g.children(n as int) == seq![h.main_rotor, h.tail_rotor, h.door]
    &&& is_leaf_of(g, (n + 1) as int, geo.main_rotor, "main"@)
    &&& is_leaf_of(g, (n + 2) as int, geo.tail_rotor, "tail"@)
    &&& is_leaf_of(g, (n + 3) as int, geo.door, "door"@)
}

proof fn lemma_helicopter_kept(
    g1: SceneGraph,
    g2: SceneGraph,
    n: nat,
    h: HelicopterNodes,
    geo: HelicopterGeometry,
    name: Seq<char>,
)
    requires
        is_helicopter(g1, n, h, geo, name),
        n + 4 <= g2.node_count(),
        forall|i: int| n <= i < n + 4 ==> #[trigger] g2.node_at(i) == g1.node_at(i),
        forall|i: int| n <= i < n + 4 ==> #[trigger] g2.children(i) == g1.children(i),
    ensures
        is_helicopter(g2, n, h, geo, name),
{
    assert(g2.node_at(n as int) == g1.node_at(n as int));
    assert(g2.children(n as int) == g1.children(n as int));
    assert(g2.node_at((n + 1) as int) == g1.node_at((n + 1) as int));
    assert(g2.children((n + 1) as int) == g1.children((n + 1) as int));
    assert(g2.node_at((n + 2) as int) == g1.node_at((n + 2) as int));
    assert(g2.children((n + 2) as int) == g1.children((n + 2) as int));
    assert(g2.node_at((n + 3) as int) == g1.node_at((n + 3) as int));
    assert(g2.children((n + 3) as int) == g1.children((n + 3) as int));
}

/// The nodes of `old` keep their contents in `new`.
pub open spec fn keeps_nodes(new: SceneGraph, old: SceneGraph) -> bool {
    &&& old.node_count() <= new.node_count()
    &&& forall|i: int| 0 <= i < old.node_count() ==> #[trigger] new.node_at(i) == old.node_at(i)
    &&& forall|i: int| 0 <= i < old.node_count() ==> #[trigger] new.parent(i) == old.parent(i)
    &&& forall|i: int|
        0 <= i < old.node_count() ==> #[trigger] new.children(i) == old.children(i)
    &&& forall|i: int| 0 <= i < old.node_count() ==> #[trigger] new.root_of(i) == old.root_of(i)
}

fn build_helicopter(graph: &mut SceneGraph, geo: &HelicopterGeometry, body_name: String) -> (r:
    HelicopterNodes)
    requires
        old(graph).wf(),
    ensures
        final(graph).wf(),
        final(graph).node_count() == old(graph).node_count() + 4,
        is_helicopter(*final(graph), old(graph).node_count(), r, *geo, body_name@),
        final(graph).parent(r.body as int) is None,
        final(graph).root_of(r.body as int) == r.body,
        keeps_nodes(*final(graph), *old(graph)),
{
    let ghost n = graph.node_count();
    proof {
        assert forall|i: int| 0 <= i < n implies #[trigger] graph.root_of(i) < n by {
            graph.lemma_root_of(i);
        }
    }
    let body = graph.from_vao(geo.body.vao_id, geo.body.index_count, body_name);
    let main_rotor = graph.from_vao(
        geo.main_rotor.vao_id,
        geo.main_rotor.index_count,
        "main".to_owned(),
    );
    let tail_rotor = graph.from_vao(
        geo.tail_rotor.vao_id,
        geo.tail_rotor.index_count,
        "tail".to_owned(),
    );
    let door = graph.from_vao(geo.door.vao_id, geo.door.index_count, "door".to_owned());
    assert(graph.root_of(body as int) == body);
    let r1 = graph.add_child(body, main_rotor);
    assert(r1 is Ok);
    assert(graph.root_of(body as int) == body);
    let r2 = graph.add_child(body, tail_rotor);
    assert(r2 is Ok);
    assert(graph.root_of(body as int) == body);
    let r3 = graph.add_child(body, door);
    assert(r3 is Ok);
    proof {
        assert(graph.children(body as int) =~= seq![main_rotor, tail_rotor, door]);
    }
    HelicopterNodes { body, main_rotor, tail_rotor, door }
}

/// Adds the player's helicopter: a body named `"body"` carrying a main
/// rotor, a tail rotor and a door.
pub fn new_helicopter(graph: &mut SceneGraph, geo: &HelicopterGeometry) -> (r: HelicopterNodes)
    requires
        old(graph).wf(),
    ensures
        final(graph).wf(),
        final(graph).node_count() == old(graph).node_count() + 4,
        is_helicopter(*final(graph), old(graph).node_count(), r, *geo, "body"@),
        final(graph).parent(r.body as int) is None,
        final(graph).root_of(r.body as int) == r.body,
        keeps_nodes(*final(graph), *old(graph)),
{
    build_helicopter(graph, geo, "body".to_owned())
}

/// Adds a wandering helicopter: like the player's, but its body is named
/// `"zombie"`, which makes it follow the wander path.
pub fn zombie_helicopter(graph: &mut SceneGraph, geo: &HelicopterGeometry) -> (r: HelicopterNodes)
    requires
        old(graph).wf(),
    ensures
        final(graph).wf(),
        final(graph).node_count() == old(graph).node_count() + 4,
        is_helicopter(*final(graph), old(graph).node_count(), r, *geo, "zombie"@),
        final(graph).parent(r.body as int) is None,
        final(graph).root_of(r.body as int) == r.body,
        keeps_nodes(*final(graph), *old(graph)),
{
    build_helicopter(graph, geo, "zombie".to_owned())
}

/// Adds the terrain: a detached leaf named `"terrain"`.
pub fn new_terrain(graph: &mut SceneGraph, geo: Geometry) -> (r: usize)
    requires
        old(graph).wf(),
    ensures
        final(graph).wf(),
        r == old(graph).node_count(),
        final(graph).node_count() == old(graph).node_count() + 1,
        is_leaf_of(*final(graph), r as int, geo, "terrain"@),
        final(graph).parent(r as int) is None,
        final(graph).root_of(r as int) == r,
        keeps_nodes(*final(graph), *old(graph)),
{
    graph.from_vao(geo.vao_id, geo.index_count, "terrain".to_owned())
}

/// The nodes of a whole scene.
pub struct Scene {
    pub root: usize,
    pub terrain: usize,
    pub player: HelicopterNodes,
    pub zombies: Vec<HelicopterNodes>,
}

/// Adds a whole scene: an empty root holding the terrain, which carries the
/// player's helicopter and then `zombie_count` wandering ones, each made of
/// the same geometry.
pub fn new_scene(
    graph: &mut SceneGraph,
    terrain: Geometry,
    helicopter: &HelicopterGeometry,
    zombie_count: usize,
) -> (r: Scene)
    requires
        old(graph).wf(),
    ensures
        final(graph).wf(),
        keeps_nodes(*final(graph), *old(graph)),
        final(graph).node_count() == old(graph).node_count() + 6 + 4 * zombie_count,
        r.root == old(graph).node_count(),
        final(graph).node_at(r.root as int).index_count == -1,
        final(graph).parent(r.root as int) is None,
        final(graph).children(r.root as int) == seq![r.terrain],
        r.terrain == r.root + 1,
        final(graph).node_at(r.terrain as int).vao_id == terrain.vao_id,
        final(graph).node_at(r.terrain as int).index_count == terrain.index_count,
        final(graph).node_at(r.terrain as int).name@ == "terrain"@,
        final(graph).children(r.terrain as int) == seq![r.player.body] + Seq::new(
            zombie_count as nat,
            |i: int| r.zombies@[i].body,
        ),
        is_helicopter(*final(graph), (r.root + 2) as nat, r.player, *helicopter, "body"@),
        r.zombies@.len() == zombie_count,
        forall|i: int|
            0 <= i < zombie_count ==> is_helicopter(
                *final(graph),
                (r.root + 6 + 4 * i) as nat,
                #[trigger] r.zombies@[i],
                *helicopter,
                "zombie"@,
            ),
{
    let ghost g0 = *graph;
    let ghost n = graph.node_count();
    proof {
        assert forall|i: int| 0 <= i < n implies #[trigger] g0.root_of(i) < n by {
            g0.lemma_root_of(i);
        }
    }
    let root = graph.new_node();
    let terrain_node = new_terrain(graph, terrain);
    let player = new_helicopter(graph, helicopter);
    let mut zombies: Vec<HelicopterNodes> = Vec::new();
    let mut i: usize = 0;
    while i < zombie_count
        invariant
            graph.wf(),
            keeps_nodes(*graph, g0),
            forall|j: int| 0 <= j < n ==> #[trigger] g0.root_of(j) < n,
            n == g0.node_count(),
            i <= zombie_count,
            root == n,
            terrain_node == n + 1,
            graph.node_count() == n + 6 + 4 * i,
            graph.node_at(root as int).index_count == -1,
            graph.parent(root as int) is None,
            graph.root_of(root as int) == root,
            graph.children(root as int) == Seq::<usize>::empty(),
            is_leaf_of(*graph, terrain_node as int, terrain, "terrain"@),
            graph.parent(terrain_node as int) is None,
            graph.root_of(terrain_node as int) == terrain_node,
            is_helicopter(*graph, n + 2, player, *helicopter, "body"@),
            graph.parent(player.body as int) is None,
            zombies@.len() == i,
            forall|j: int|
                0 <= j < i ==> is_helicopter(
                    *graph,
                    (n + 6 + 4 * j) as nat,
                    #[trigger] zombies@[j],
                    *helicopter,
                    "zombie"@,
                ),
            forall|j: int| 0 <= j < i ==> #[trigger] graph.parent(zombies@[j].body as int) is None,
        decreases zombie_count - i,
    {
        let ghost before = *graph;
        let z = zombie_helicopter(graph, helicopter);
        proof {
            assert forall|j: int| 0 <= j < i implies is_helicopter(
                *graph,
                (n + 6 + 4 * j) as nat,
                #[trigger] zombies@[j],
                *helicopter,
                "zombie"@,
            ) by {
                lemma_helicopter_kept(before, *graph, (n + 6 + 4 * j) as nat, zombies@[j], *helicopter, "zombie"@);
            }
            lemma_helicopter_kept(before, *graph, n + 2, player, *helicopter, "body"@);
        }
        zombies.push(z);
        i = i + 1;
    }
    let ghost before = *graph;
    let attached = graph.add_child(terrain_node, player.body);
    assert(attached is Ok);
    proof {
        lemma_helicopter_kept(before, *graph, n + 2, player, *helicopter, "body"@);
        assert forall|j: int| 0 <= j < zombie_count implies is_helicopter(
            *graph,
            (n + 6 + 4 * j) as nat,
            #[trigger] zombies@[j],
            *helicopter,
            "zombie"@,
        ) by {
            lemma_helicopter_kept(before, *graph, (n + 6 + 4 * j) as nat, zombies@[j], *helicopter, "zombie"@);
        }
        assert(graph.children(terrain_node as int) =~= seq![player.body] + Seq::new(
            0,
            |j: int| zombies@[j].body,
        ));
    }
    let mut k: usize = 0;
    while k < zombies.len()
        invariant
            graph.wf(),
            keeps_nodes(*graph, g0),
            forall|j: int| 0 <= j < n ==> #[trigger] g0.root_of(j) < n,
            n == g0.node_count(),
            k <= zombie_count,
            zombies@.len() == zombie_count,
            root == n,
            terrain_node == n + 1,
            graph.node_count() == n + 6 + 4 * zombie_count,
            graph.node_at(root as int).index_count == -1,
            graph.parent(root as int) is None,
            graph.root_of(root as int) == root,
            graph.children(root as int) == Seq::<usize>::empty(),
            graph.node_at(terrain_node as int).vao_id == terrain.vao_id,
            graph.node_at(terrain_node as int).index_count == terrain.index_count,
            graph.node_at(terrain_node as int).name@ == "terrain"@,
            graph.parent(terrain_node as int) is None,
            graph.root_of(terrain_node as int) == terrain_node,
            graph.children(terrain_node as int) == seq![player.body] + Seq::new(
                k as nat,
                |j: int| zombies@[j].body,
            ),
            is_helicopter(*graph, n + 2, player, *helicopter, "body"@),
            forall|j: int|
                0 <= j < zombie_count ==> is_helicopter(
                    *graph,
                    (n + 6 + 4 * j) as nat,
                    #[trigger] zombies@[j],
                    *helicopter,
                    "zombie"@,
                ),
            forall|j: int|
                k <= j < zombie_count ==> #[trigger] graph.parent(zombies@[j].body as int) is None,
        decreases zombie_count - k,
    {
        let ghost before = *graph;
        let body = zombies[k].body;
        assert(is_helicopter(*graph, (n + 6 + 4 * k) as nat, zombies@[k as int], *helicopter, "zombie"@));
        let attached = graph.add_child(terrain_node, body);
        assert(attached is Ok);
        proof {
            lemma_helicopter_kept(before, *graph, n + 2, player, *helicopter, "body"@);
            assert forall|j: int| 0 <= j < zombie_count implies is_helicopter(
                *graph,
                (n + 6 + 4 * j) as nat,
                #[trigger] zombies@[j],
                *helicopter,
                "zombie"@,
            ) by {
                lemma_helicopter_kept(before, *graph, (n + 6 + 4 * j) as nat, zombies@[j], *helicopter, "zombie"@);
            }
            assert forall|j: int| k + 1 <= j < zombie_count implies #[trigger] graph.parent(
                zombies@[j].body as int,
            ) is None by {
                assert(before.parent(zombies@[j].body as int) is None);
                assert(is_helicopter(*graph, (n + 6 + 4 * j) as nat, zombies@[j], *helicopter, "zombie"@));
            }
            assert(graph.children(terrain_node as int) =~= seq![player.body] + Seq::new(
                (k + 1) as nat,
                |j: int| zombies@[j].body,
            ));
        }
        k = k + 1;
    }
    let ghost before = *graph;
    let attached = graph.add_child(root, terrain_node);
    assert(attached is Ok);
    proof {
        lemma_helicopter_kept(before, *graph, n + 2, player, *helicopter, "body"@);
        assert forall|j: int| 0 <= j < zombie_count implies is_helicopter(
            *graph,
            (n + 6 + 4 * j) as nat,
            #[trigger] zombies@[j],
            *helicopter,
            "zombie"@,
        ) by {
            lemma_helicopter_kept(before, *graph, (n + 6 + 4 * j) as nat, zombies@[j], *helicopter, "zombie"@);
        }
        assert(graph.children(root as int) =~= seq![terrain_node]);
    }
    Scene { root, terrain: terrain_node, player, zombies }
}

} // verus!
