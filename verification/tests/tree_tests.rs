use wgpu_robotic_simulator::model::{JointKind, Limits, Pose, RawJoint, RawLink, Triple};
use wgpu_robotic_simulator::tree::{build, BuildError, Entity};

fn zero() -> Triple {
    Triple { x: 0, y: 0, z: 0 }
}

fn rest() -> Pose {
    Pose { xyz: zero(), rpy: zero() }
}

fn link(name: &str) -> RawLink {
    RawLink { name: name.as_bytes().to_vec(), inertial: None, visuals: Vec::new(), collisions: Vec::new() }
}

fn joint(name: &str, kind: JointKind, parent: &str, child: &str) -> RawJoint {
    RawJoint {
        name: name.as_bytes().to_vec(),
        kind,
        origin: rest(),
        parent: parent.as_bytes().to_vec(),
        child: child.as_bytes().to_vec(),
    }
}

fn turning() -> JointKind {
    JointKind::Revolute {
        axis: Triple { x: 0, y: 0, z: 1_000_000_000 },
        limits: Some(Limits { lower: -1_000_000_000, upper: 1_000_000_000 }),
    }
}

#[test]
fn single_link_is_a_tree() {
    let tree = build(vec![link("base")], Vec::new()).unwrap();
    assert_eq!(tree.root, 0);
    assert_eq!(tree.order, vec![0]);
    assert_eq!(tree.slot, vec![0]);
    assert_eq!(tree.incoming, vec![None]);
    assert!(tree.movable.is_empty());
}

#[test]
fn chain_is_ordered_parent_first() {
    // Links are described leaf first, so the order must differ from the description.
    let links = vec![link("hand"), link("arm"), link("base")];
    let joints = vec![
        joint("wrist", turning(), "arm", "hand"),
        joint("shoulder", JointKind::Fixed, "base", "arm"),
    ];
    let tree = build(links, joints).unwrap();
    assert_eq!(tree.root, 2);
    assert_eq!(tree.order, vec![2, 1, 0]);
    assert_eq!(tree.slot, vec![2, 1, 0]);
    assert_eq!(tree.parent_link, vec![1, 2]);
    assert_eq!(tree.child_link, vec![0, 1]);
    assert_eq!(tree.incoming, vec![Some(0), Some(1), None]);
    assert_eq!(tree.state_index, vec![Some(0), None]);
    assert_eq!(tree.movable, vec![0]);
}

#[test]
fn every_link_comes_after_its_parent() {
    let links = vec![link("a"), link("b"), link("c"), link("d"), link("e")];
    let joints = vec![
        joint("j0", turning(), "c", "a"),
        joint("j1", turning(), "c", "b"),
        joint("j2", turning(), "b", "d"),
        joint("j3", turning(), "a", "e"),
    ];
    let tree = build(links, joints).unwrap();
    assert_eq!(tree.root, 2);
    let roots = tree.incoming.iter().filter(|j| j.is_none()).count();
    assert_eq!(roots, 1);
    for j in 0..tree.joints.len() {
        assert!(tree.slot[tree.parent_link[j]] < tree.slot[tree.child_link[j]]);
        assert_eq!(tree.incoming[tree.child_link[j]], Some(j));
    }
    for p in 0..tree.order.len() {
        assert_eq!(tree.slot[tree.order[p]], p);
    }
    // Breadth first: both children of c, in description order, then theirs.
    assert_eq!(tree.order, vec![2, 0, 1, 4, 3]);
}

#[test]
fn movable_joints_are_numbered_in_visiting_order() {
    let links = vec![link("base"), link("left"), link("right"), link("tip")];
    let joints = vec![
        joint("to_tip", turning(), "right", "tip"),
        joint("to_right", JointKind::Continuous { axis: zero() }, "base", "right"),
        joint("to_left", JointKind::Fixed, "base", "left"),
    ];
    let tree = build(links, joints).unwrap();
    assert_eq!(tree.order, vec![0, 2, 1, 3]);
    assert_eq!(tree.movable, vec![1, 0]);
    assert_eq!(tree.state_index, vec![Some(1), Some(0), None]);
}

#[test]
fn duplicate_link_name_is_rejected() {
    let r = build(vec![link("a"), link("b"), link("a")], Vec::new());
    assert_eq!(r.err(), Some(BuildError::DuplicateName(Entity::Link(2))));
}

#[test]
fn duplicate_joint_name_is_rejected() {
    let links = vec![link("a"), link("b"), link("c")];
    let joints = vec![joint("j", turning(), "a", "b"), joint("j", turning(), "b", "c")];
    assert_eq!(build(links, joints).err(), Some(BuildError::DuplicateName(Entity::Joint(1))));
}

#[test]
fn joint_naming_a_missing_link_is_rejected() {
    let links = vec![link("a"), link("b")];
    let joints = vec![joint("j0", turning(), "a", "b"), joint("j1", turning(), "b", "ghost")];
    assert_eq!(build(links, joints).err(), Some(BuildError::DanglingReference(1)));
}

#[test]
fn missing_parent_link_is_dangling() {
    let joints = vec![joint("j0", turning(), "nowhere", "a")];
    assert_eq!(build(vec![link("a")], joints).err(), Some(BuildError::DanglingReference(0)));
}

#[test]
fn two_joints_with_one_child_is_multiple_parents() {
    let links = vec![link("a"), link("b"), link("c")];
    let joints = vec![joint("j0", turning(), "a", "c"), joint("j1", turning(), "b", "c")];
    assert_eq!(build(links, joints).err(), Some(BuildError::MultipleParents(2)));
}

#[test]
fn every_link_a_child_is_no_root() {
    let links = vec![link("a"), link("b")];
    let joints = vec![joint("j0", turning(), "a", "b"), joint("j1", turning(), "b", "a")];
    assert_eq!(build(links, joints).err(), Some(BuildError::NoRoot));
}

#[test]
fn no_links_is_no_root() {
    assert_eq!(build(Vec::new(), Vec::new()).err(), Some(BuildError::NoRoot));
}

#[test]
fn two_unjoined_links_is_multiple_roots() {
    let links = vec![link("a"), link("b"), link("c")];
    let joints = vec![joint("j0", turning(), "a", "b")];
    assert_eq!(build(links, joints).err(), Some(BuildError::MultipleRoots(2)));
}

#[test]
fn loop_beside_the_root_is_a_cycle() {
    let links = vec![link("base"), link("x"), link("y")];
    let joints = vec![joint("j0", turning(), "x", "y"), joint("j1", turning(), "y", "x")];
    assert_eq!(build(links, joints).err(), Some(BuildError::CycleDetected(1)));
}

#[test]
fn joint_onto_itself_is_a_cycle() {
    let links = vec![link("base"), link("x")];
    let joints = vec![joint("j0", turning(), "x", "x")];
    assert_eq!(build(links, joints).err(), Some(BuildError::CycleDetected(1)));
}

#[test]
fn built_tree_keeps_the_records() {
    let links = vec![link("base"), link("arm")];
    let joints = vec![joint("j", turning(), "base", "arm")];
    let tree = build(links, joints).unwrap();
    assert_eq!(tree.links[1].name, b"arm".to_vec());
    assert_eq!(tree.joints[0].name, b"j".to_vec());
    assert_eq!(tree.joints[0].kind, turning());
}
