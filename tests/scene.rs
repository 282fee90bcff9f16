use gloom::animation::{animation_plan, behavior_of, Animation, Behavior};
use gloom::buffers::{byte_size_of_array, size_of};
use gloom::graph::{GraphError, SceneGraph, Step};
use gloom::object::{
    new_helicopter, new_scene, new_terrain, zombie_helicopter, Geometry, HelicopterGeometry,
};
use gloom::render::{draw_plan, DrawCall};

fn leaf(g: &mut SceneGraph, vao: u32, count: i32, name: &str) -> usize {
    g.from_vao(vao, count, name.to_string())
}

#[test]
fn empty_node_has_no_geometry() {
    let mut g = SceneGraph::new();
    let n = g.new_node();
    assert_eq!(n, 0);
    assert_eq!(g.len(), 1);
    assert_eq!(g.node(n).index_count, -1);
    assert_eq!(g.node(n).name, "");
    assert!(g.children_of(n).is_empty());
    assert_eq!(g.parent_of(n), None);
}

#[test]
fn add_child_appends_in_order() {
    let mut g = SceneGraph::new();
    let p = g.new_node();
    let a = leaf(&mut g, 1, 1, "a");
    let b = leaf(&mut g, 2, 1, "b");
    let c = leaf(&mut g, 3, 1, "c");
    assert_eq!(g.add_child(p, b), Ok(()));
    assert_eq!(g.add_child(p, a), Ok(()));
    assert_eq!(g.add_child(p, c), Ok(()));
    assert_eq!(g.children_of(p).clone(), vec![b, a, c]);
    assert_eq!(g.parent_of(a), Some(p));
    assert_eq!(g.find_root(c), p);
}

#[test]
fn add_child_rejects_missing_node() {
    let mut g = SceneGraph::new();
    let p = g.new_node();
    assert_eq!(g.add_child(p, 5), Err(GraphError::NoSuchNode));
    assert_eq!(g.add_child(5, p), Err(GraphError::NoSuchNode));
}

#[test]
fn add_child_rejects_second_parent() {
    let mut g = SceneGraph::new();
    let p = g.new_node();
    let q = g.new_node();
    let c = g.new_node();
    assert_eq!(g.add_child(p, c), Ok(()));
    assert_eq!(g.add_child(q, c), Err(GraphError::AlreadyOwned));
    assert_eq!(g.children_of(q).len(), 0);
    assert_eq!(g.parent_of(c), Some(p));
}

#[test]
fn add_child_rejects_cycles() {
    let mut g = SceneGraph::new();
    let a = g.new_node();
    let b = g.new_node();
    let c = g.new_node();
    assert_eq!(g.add_child(a, a), Err(GraphError::WouldCycle));
    assert_eq!(g.add_child(a, b), Ok(()));
    assert_eq!(g.add_child(b, c), Ok(()));
    assert_eq!(g.add_child(c, a), Err(GraphError::WouldCycle));
    assert_eq!(g.parent_of(a), None);
    assert!(g.children_of(c).is_empty());
}

#[test]
fn traversal_is_depth_first_in_insertion_order() {
    // root -> (x -> (x1, x2), y -> (y1))
    let mut g = SceneGraph::new();
    let root = g.new_node();
    let x = leaf(&mut g, 10, 1, "x");
    let y = leaf(&mut g, 11, 1, "y");
    let x1 = leaf(&mut g, 12, 1, "x1");
    let x2 = leaf(&mut g, 13, 1, "x2");
    let y1 = leaf(&mut g, 14, 1, "y1");
    g.add_child(root, x).unwrap();
    g.add_child(y, y1).unwrap();
    g.add_child(x, x2).unwrap();
    g.add_child(x, x1).unwrap();
    g.add_child(root, y).unwrap();
    let order: Vec<usize> = g.propagation_plan(root).iter().map(|s| s.node).collect();
    assert_eq!(order, vec![root, x, x2, x1, y, y1]);
    let drawn: Vec<usize> = draw_plan(&g, root).iter().map(|d| d.node).collect();
    assert_eq!(drawn, vec![x, x2, x1, y, y1]);
}

#[test]
fn chain_propagates_parent_first() {
    let mut g = SceneGraph::new();
    let root = leaf(&mut g, 1, 2, "root");
    let a = leaf(&mut g, 2, 2, "a");
    let b = leaf(&mut g, 3, 2, "b");
    g.add_child(root, a).unwrap();
    g.add_child(a, b).unwrap();
    let plan = g.propagation_plan(root);
    assert_eq!(
        plan,
        vec![
            Step { node: root, parent_step: None },
            Step { node: a, parent_step: Some(0) },
            Step { node: b, parent_step: Some(1) },
        ]
    );
}

#[test]
fn propagation_from_inner_node_covers_its_subtree_only() {
    let mut g = SceneGraph::new();
    let root = g.new_node();
    let a = g.new_node();
    let b = g.new_node();
    let c = g.new_node();
    g.add_child(root, a).unwrap();
    g.add_child(a, b).unwrap();
    g.add_child(root, c).unwrap();
    let plan = g.propagation_plan(a);
    assert_eq!(
        plan,
        vec![Step { node: a, parent_step: None }, Step { node: b, parent_step: Some(0) }]
    );
}

#[test]
fn draw_plan_skips_transform_only_nodes() {
    let mut g = SceneGraph::new();
    let root = g.new_node();
    let group = g.new_node();
    let body = leaf(&mut g, 7, 100, "body");
    let empty = leaf(&mut g, 8, 0, "empty");
    g.add_child(root, group).unwrap();
    g.add_child(group, body).unwrap();
    g.add_child(root, empty).unwrap();
    assert_eq!(
        draw_plan(&g, root),
        vec![
            DrawCall { node: body, vao_id: 7, vertex_count: 300 },
            DrawCall { node: empty, vao_id: 8, vertex_count: 0 },
        ]
    );
}

#[test]
fn draw_plan_counts_three_indices_per_triangle() {
    let mut g = SceneGraph::new();
    let big = leaf(&mut g, 1, i32::MAX, "big");
    assert_eq!(draw_plan(&g, big)[0].vertex_count, 3 * (i32::MAX as i64));
    let none = leaf(&mut g, 2, -5, "none");
    assert!(draw_plan(&g, none).is_empty());
}

#[test]
fn behavior_follows_name() {
    assert_eq!(behavior_of(&"main".to_string()), Behavior::MainRotor);
    assert_eq!(behavior_of(&"tail".to_string()), Behavior::TailRotor);
    assert_eq!(behavior_of(&"zombie".to_string()), Behavior::Wander);
    assert_eq!(behavior_of(&"door".to_string()), Behavior::Idle);
    assert_eq!(behavior_of(&"".to_string()), Behavior::Idle);
    assert_eq!(behavior_of(&"Main".to_string()), Behavior::Idle);
}

#[test]
fn animation_reaches_children_of_idle_nodes() {
    let mut g = SceneGraph::new();
    let root = g.new_node();
    let heli = zombie_helicopter(
        &mut g,
        &HelicopterGeometry {
            body: Geometry { vao_id: 1, index_count: 10 },
            main_rotor: Geometry { vao_id: 2, index_count: 11 },
            tail_rotor: Geometry { vao_id: 3, index_count: 12 },
            door: Geometry { vao_id: 4, index_count: 13 },
        },
    );
    g.add_child(root, heli.body).unwrap();
    assert_eq!(
        animation_plan(&g, root),
        vec![
            Animation { node: root, behavior: Behavior::Idle },
            Animation { node: heli.body, behavior: Behavior::Wander },
            Animation { node: heli.main_rotor, behavior: Behavior::MainRotor },
            Animation { node: heli.tail_rotor, behavior: Behavior::TailRotor },
            Animation { node: heli.door, behavior: Behavior::Idle },
        ]
    );
}

#[test]
fn helicopter_has_three_parts_in_order() {
    let mut g = SceneGraph::new();
    let terrain = new_terrain(&mut g, Geometry { vao_id: 9, index_count: 50 });
    let geo = HelicopterGeometry {
        body: Geometry { vao_id: 1, index_count: 10 },
        main_rotor: Geometry { vao_id: 2, index_count: 11 },
        tail_rotor: Geometry { vao_id: 3, index_count: 12 },
        door: Geometry { vao_id: 4, index_count: 13 },
    };
    let h = new_helicopter(&mut g, &geo);
    assert_eq!(g.node(terrain).name, "terrain");
    assert_eq!(g.node(h.body).name, "body");
    assert_eq!(g.node(h.main_rotor).name, "main");
    assert_eq!(g.node(h.tail_rotor).name, "tail");
    assert_eq!(g.node(h.door).name, "door");
    assert_eq!(g.node(h.door).vao_id, 4);
    assert_eq!(g.node(h.tail_rotor).index_count, 12);
    assert_eq!(g.children_of(h.body).clone(), vec![h.main_rotor, h.tail_rotor, h.door]);
    g.add_child(terrain, h.body).unwrap();
    let z = zombie_helicopter(&mut g, &geo);
    assert_eq!(g.node(z.body).name, "zombie");
    g.add_child(terrain, z.body).unwrap();
    assert_eq!(draw_plan(&g, terrain).len(), 9);
    assert_eq!(g.find_root(z.door), terrain);
}

#[test]
fn buffer_sizes() {
    let v: Vec<f32> = vec![0.0; 9];
    assert_eq!(byte_size_of_array(&v[..]), 36);
    let i: Vec<u32> = vec![1, 2, 3];
    assert_eq!(byte_size_of_array(&i[..]), 12);
    let e: Vec<u64> = Vec::new();
    assert_eq!(byte_size_of_array(&e[..]), 0);
    assert_eq!(size_of::<f32>(), 4);
    assert_eq!(size_of::<u8>(), 1);
    assert_eq!(size_of::<[f32; 3]>(), 12);
}

#[test]
fn scene_holds_terrain_player_and_zombies() {
    let mut g = SceneGraph::new();
    let geo = HelicopterGeometry {
        body: Geometry { vao_id: 1, index_count: 10 },
        main_rotor: Geometry { vao_id: 2, index_count: 11 },
        tail_rotor: Geometry { vao_id: 3, index_count: 12 },
        door: Geometry { vao_id: 4, index_count: 13 },
    };
    let scene = new_scene(&mut g, Geometry { vao_id: 9, index_count: 50 }, &geo, 5);
    assert_eq!(g.len(), 26);
    assert_eq!(scene.root, 0);
    assert_eq!(scene.terrain, 1);
    assert_eq!(g.node(scene.root).index_count, -1);
    assert_eq!(g.node(scene.terrain).name, "terrain");
    assert_eq!(g.children_of(scene.root).clone(), vec![scene.terrain]);
    let mut bodies = vec![scene.player.body];
    bodies.extend(scene.zombies.iter().map(|z| z.body));
    assert_eq!(g.children_of(scene.terrain).clone(), bodies);
    assert_eq!(bodies, vec![2, 6, 10, 14, 18, 22]);
    assert_eq!(g.node(scene.player.body).name, "body");
    for z in &scene.zombies {
        assert_eq!(g.node(z.body).name, "zombie");
        assert_eq!(g.children_of(z.body).clone(), vec![z.main_rotor, z.tail_rotor, z.door]);
    }
    let plan = g.propagation_plan(scene.root);
    assert_eq!(plan.len(), 26);
    assert_eq!(draw_plan(&g, scene.root).len(), 25);
    let wander: Vec<usize> = animation_plan(&g, scene.root)
        .iter()
        .filter(|a| a.behavior == Behavior::Wander)
        .map(|a| a.node)
        .collect();
    assert_eq!(wander, vec![6, 10, 14, 18, 22]);
}

#[test]
fn scene_without_zombies() {
    let mut g = SceneGraph::new();
    let pre = g.new_node();
    let geo = HelicopterGeometry {
        body: Geometry { vao_id: 1, index_count: 1 },
        main_rotor: Geometry { vao_id: 2, index_count: 1 },
        tail_rotor: Geometry { vao_id: 3, index_count: 1 },
        door: Geometry { vao_id: 4, index_count: 1 },
    };
    let scene = new_scene(&mut g, Geometry { vao_id: 9, index_count: 1 }, &geo, 0);
    assert_eq!(scene.root, 1);
    assert!(scene.zombies.is_empty());
    assert_eq!(g.children_of(scene.terrain).clone(), vec![scene.player.body]);
    assert_eq!(g.parent_of(pre), None);
    assert!(g.children_of(pre).is_empty());
}
