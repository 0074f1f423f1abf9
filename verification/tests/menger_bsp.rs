use vackrooms::menger_bsp::{generate_menger_bsp, MengerNode, SUBDIVIDE_THRESHOLD};

/// Narrowest walkable passage, in world units.
const CORRIDOR_WIDTH: f32 = 1.2;

#[derive(Debug, Clone, Copy, PartialEq)]
struct Bounds {
    min_x: f32,
    min_z: f32,
    max_x: f32,
    max_z: f32,
}

fn rect(min_x: f32, min_z: f32, max_x: f32, max_z: f32) -> Bounds {
    Bounds { min_x, min_z, max_x, max_z }
}

fn thirds(bounds: Bounds) -> [Bounds; 9] {
    let dx = (bounds.max_x - bounds.min_x) / 3.0;
    let dz = (bounds.max_z - bounds.min_z) / 3.0;
    std::array::from_fn(|i| {
        let (ix, iz) = ((i % 3) as f32, (i / 3) as f32);
        rect(
            bounds.min_x + ix * dx,
            bounds.min_z + iz * dz,
            bounds.min_x + (ix + 1.0) * dx,
            bounds.min_z + (iz + 1.0) * dz,
        )
    })
}

fn splittable(bounds: Bounds) -> bool {
    let child_x = (bounds.max_x - bounds.min_x) / 3.0;
    let child_z = (bounds.max_z - bounds.min_z) / 3.0;
    child_x.min(child_z) >= CORRIDOR_WIDTH
}

fn anchor(bounds: Bounds) -> (i64, i64) {
    (bounds.min_x.floor() as i64, bounds.min_z.floor() as i64)
}

fn generate(bounds: Bounds, max_depth: u32, seed: u32) -> MengerNode<Bounds> {
    generate_menger_bsp(bounds, max_depth, seed, &splittable, &thirds, &anchor)
}

fn plate() -> Bounds {
    rect(0.0, 0.0, 81.0, 81.0)
}

fn collect<'a>(root: &'a MengerNode<Bounds>) -> Vec<&'a MengerNode<Bounds>> {
    let mut nodes = Vec::new();
    let mut stack = vec![root];
    while let Some(node) = stack.pop() {
        nodes.push(node);
        stack.extend(node.children.iter());
    }
    nodes
}

#[test]
fn children_tile_their_parent_exactly() {
    let root = generate(plate(), 3, 42);
    for node in collect(&root) {
        if node.children.is_empty() {
            continue;
        }
        assert_eq!(node.children.len(), 9);
        let parent_area =
            (node.bounds.max_x - node.bounds.min_x) * (node.bounds.max_z - node.bounds.min_z);
        let child_area: f32 = node
            .children
            .iter()
            .map(|c| (c.bounds.max_x - c.bounds.min_x) * (c.bounds.max_z - c.bounds.min_z))
            .sum();
        assert!(
            (parent_area - child_area).abs() < parent_area * 1e-4,
            "children must cover the parent: {parent_area} vs {child_area}"
        );
    }
}

#[test]
fn every_subdivision_carves_a_central_corridor() {
    let root = generate(plate(), 3, 42);
    for node in collect(&root) {
        if !node.children.is_empty() {
            assert!(node.children[4].is_corridor, "center cell must circulate");
        }
    }
}

#[test]
fn partition_is_deterministic_and_seed_sensitive() {
    let shape = |seed: u32| {
        let mut signature = Vec::new();
        let root = generate(plate(), 3, seed);
        for node in root.visit() {
            signature.push((node.depth, node.is_corridor, node.children.len()));
        }
        signature
    };
    assert_eq!(shape(42), shape(42));
    assert_ne!(shape(42), shape(43), "seed must matter");
}

#[test]
fn recursion_never_produces_an_unwalkable_corridor() {
    let root = generate(plate(), 10, 7);
    for node in collect(&root) {
        if node.is_corridor {
            let width = (node.bounds.max_x - node.bounds.min_x)
                .min(node.bounds.max_z - node.bounds.min_z);
            assert!(
                width >= CORRIDOR_WIDTH - 1e-4,
                "corridor narrower than a human passage: {width}"
            );
        }
    }
}

#[test]
fn a_zero_depth_limit_leaves_the_plate_whole() {
    let root = generate(plate(), 0, 42);
    assert!(root.children.is_empty());
    assert!(!root.is_corridor);
    assert_eq!(root.depth, 0);
    assert_eq!(root.bounds, plate());
}

#[test]
fn a_plate_too_narrow_to_split_stays_one_room() {
    let root = generate(rect(0.0, 0.0, 3.0, 81.0), 5, 42);
    assert!(root.children.is_empty());
    assert_eq!(root.visit().len(), 1);
}

#[test]
fn the_first_split_is_unconditional_and_its_children_sit_one_level_down() {
    let root = generate(plate(), 1, 42);
    assert_eq!(root.children.len(), 9);
    for (i, child) in root.children.iter().enumerate() {
        assert_eq!(child.depth, 1);
        assert_eq!(child.is_corridor, i == 4);
        assert!(child.children.is_empty());
        assert_eq!(child.bounds, thirds(plate())[i]);
    }
    assert_eq!(root.visit().len(), 10);
}

type Signature = (u32, bool, usize, (f32, f32, f32, f32));

fn signature(node: &MengerNode<Bounds>) -> Signature {
    let b = node.bounds;
    (node.depth, node.is_corridor, node.children.len(), (b.min_x, b.min_z, b.max_x, b.max_z))
}

fn walk(node: &MengerNode<Bounds>, out: &mut Vec<Signature>) {
    out.push(signature(node));
    for child in &node.children {
        walk(child, out);
    }
}

#[test]
fn the_visit_is_depth_first_in_child_order() {
    let root = generate(plate(), 3, 42);
    let mut expected = Vec::new();
    walk(&root, &mut expected);
    let got: Vec<Signature> = root.visit().iter().map(|n| signature(n)).collect();
    assert_eq!(got, expected);
    assert_eq!(got[0], signature(&root));
}

#[test]
fn sixty_five_percent_in_single_precision_is_the_roll_threshold() {
    assert_eq!(SUBDIVIDE_THRESHOLD as f32 / (1u64 << 24) as f32, 0.65f32);
    assert!(((SUBDIVIDE_THRESHOLD - 1) as f32 / (1u64 << 24) as f32) < 0.65f32);
}
