use wgpu_robotic_simulator::model::{JointKind, Limits, Pose, RawJoint, RawLink, Triple};
use wgpu_robotic_simulator::robot::RobotDescriptor;
use wgpu_robotic_simulator::scalar::{clamp, UNIT, ZERO};
use wgpu_robotic_simulator::state::{JointState, StateError};
use wgpu_robotic_simulator::tree::build;

fn fixed(x: f64) -> i64 {
    (x * 1e9).round() as i64
}

fn z_axis() -> Triple {
    Triple { x: 0, y: 0, z: UNIT }
}

fn plain_link(name: &str) -> RawLink {
    RawLink { name: name.as_bytes().to_vec(), inertial: None, visuals: Vec::new(), collisions: Vec::new() }
}

fn plain_joint(name: &str, kind: JointKind, parent: &str, child: &str) -> RawJoint {
    let zero = Triple { x: 0, y: 0, z: 0 };
    RawJoint {
        name: name.as_bytes().to_vec(),
        kind,
        origin: Pose { xyz: zero, rpy: zero },
        parent: parent.as_bytes().to_vec(),
        child: child.as_bytes().to_vec(),
    }
}

fn arm() -> RobotDescriptor {
    let links = vec![plain_link("base"), plain_link("a"), plain_link("b"), plain_link("c")];
    let limited = Some(Limits { lower: fixed(-1.0), upper: fixed(1.0) });
    let joints = vec![
        plain_joint("turn", JointKind::Revolute { axis: z_axis(), limits: limited }, "base", "a"),
        plain_joint("spin", JointKind::Continuous { axis: z_axis() }, "a", "b"),
        plain_joint("slide", JointKind::Prismatic { axis: z_axis(), limits: limited }, "b", "c"),
    ];
    RobotDescriptor::from_records(links, joints).unwrap()
}

#[test]
fn clamp_brings_values_into_range() {
    assert_eq!(clamp(fixed(5.0), fixed(-1.0), fixed(1.0)), fixed(1.0));
    assert_eq!(clamp(fixed(-5.0), fixed(-1.0), fixed(1.0)), fixed(-1.0));
    assert_eq!(clamp(fixed(0.25), fixed(-1.0), fixed(1.0)), fixed(0.25));
    assert_eq!(clamp(fixed(1.0), fixed(-1.0), fixed(1.0)), fixed(1.0));
}

#[test]
fn new_state_is_all_zero() {
    let robot = arm();
    assert_eq!(robot.state.values, vec![ZERO, ZERO, ZERO]);
    assert_eq!(robot.joint_count(), 3);
    assert_eq!(robot.state.limits[1], None);
}

#[test]
fn revolute_value_is_clamped_when_asked() {
    let mut robot = arm();
    assert_eq!(robot.set_joint_position(&[fixed(5.0), 0, 0], true), Ok(()));
    assert_eq!(robot.state.get(0), fixed(1.0));
}

#[test]
fn revolute_value_is_kept_when_not_clamping() {
    let mut robot = arm();
    assert_eq!(robot.set_joint_position(&[fixed(5.0), 0, 0], false), Ok(()));
    assert_eq!(robot.state.get(0), fixed(5.0));
}

#[test]
fn continuous_joint_is_never_clamped() {
    let mut robot = arm();
    robot.set_joint_position(&[fixed(-7.0), fixed(100.0), fixed(-3.0)], true).unwrap();
    assert_eq!(robot.state.values, vec![fixed(-1.0), fixed(100.0), fixed(-1.0)]);
}

#[test]
fn too_few_values_leave_the_state_alone() {
    let mut robot = arm();
    robot.set_joint_position(&[fixed(0.5), fixed(0.25), fixed(0.125)], false).unwrap();
    let before = robot.state.values.clone();
    let r = robot.set_joint_position(&[fixed(9.0), fixed(9.0)], true);
    assert_eq!(r, Err(StateError::ArityMismatch { expected: 3, found: 2 }));
    assert_eq!(robot.state.values, before);
}

#[test]
fn too_many_values_leave_the_state_alone() {
    let mut robot = arm();
    let before = robot.state.values.clone();
    let r = robot.set_joint_position(&[1, 2, 3, 4], false);
    assert_eq!(r, Err(StateError::ArityMismatch { expected: 3, found: 4 }));
    assert_eq!(robot.state.values, before);
    assert!(!robot.dirty);
}

#[test]
fn set_changes_one_value() {
    let tree = build(
        vec![plain_link("base"), plain_link("a")],
        vec![plain_joint("spin", JointKind::Continuous { axis: z_axis() }, "base", "a")],
    )
    .unwrap();
    let mut state = JointState::new(&tree);
    assert_eq!(state.len(), 1);
    state.set(0, fixed(2.5));
    assert_eq!(state.get(0), 2_500_000_000);
}

#[test]
fn writes_mark_the_robot_dirty_until_built() {
    let mut robot = arm();
    assert!(!robot.dirty);
    let before = robot.placements.clone();
    robot.set_joint_position(&[fixed(0.5), 0, 0], false).unwrap();
    assert!(robot.dirty);
    assert_eq!(robot.placements, before);
    robot.build();
    assert!(!robot.dirty);
    assert_ne!(robot.placements, before);
}

#[test]
fn links_are_found_by_name() {
    let robot = arm();
    assert_eq!(robot.find_link(&b"b".to_vec()), Some(2));
    assert_eq!(robot.find_link(&b"nope".to_vec()), None);
}
