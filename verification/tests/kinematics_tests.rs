use nalgebra_glm as glm;
use wgpu_robotic_simulator::kinematics::{recompute, Motion, Placement};
use wgpu_robotic_simulator::model::{JointKind, Limits, Pose, RawJoint, RawLink, Triple};
use wgpu_robotic_simulator::robot::RobotDescriptor;
use wgpu_robotic_simulator::scalar::UNIT;

fn to_float(x: i64) -> f32 {
    (x as f64 / 1e9) as f32
}

fn to_fixed(x: f64) -> i64 {
    (x * 1e9).round() as i64
}

fn vector(t: &Triple) -> glm::Vec3 {
    glm::vec3(to_float(t.x), to_float(t.y), to_float(t.z))
}

fn pose_matrix(p: &Pose) -> glm::Mat4 {
    glm::translation(&vector(&p.xyz))
        * glm::rotation(to_float(p.rpy.z), &glm::vec3(0.0, 0.0, 1.0))
        * glm::rotation(to_float(p.rpy.y), &glm::vec3(0.0, 1.0, 0.0))
        * glm::rotation(to_float(p.rpy.x), &glm::vec3(1.0, 0.0, 0.0))
}

fn motion_matrix(m: &Motion) -> glm::Mat4 {
    match m {
        Motion::Still => glm::Mat4::identity(),
        Motion::Turn { axis, angle } => glm::rotation(to_float(*angle), &vector(axis)),
        Motion::Slide { axis, distance } => glm::translation(&(vector(axis) * to_float(*distance))),
    }
}

fn world(placements: &[Placement]) -> Vec<glm::Mat4> {
    let mut out: Vec<glm::Mat4> = Vec::new();
    for p in placements {
        let m = match p {
            Placement::Base => glm::Mat4::identity(),
            Placement::Joined { parent, origin, motion, .. } => {
                out[*parent] * pose_matrix(origin) * motion_matrix(motion)
            }
        };
        out.push(m);
    }
    out
}

fn close(a: &glm::Mat4, b: &glm::Mat4) -> bool {
    (a - b).abs().max() < 1e-6
}

fn body(name: &str) -> RawLink {
    RawLink { name: name.as_bytes().to_vec(), inertial: None, visuals: Vec::new(), collisions: Vec::new() }
}

fn hinge(name: &str, kind: JointKind, origin: Pose, parent: &str, child: &str) -> RawJoint {
    RawJoint {
        name: name.as_bytes().to_vec(),
        kind,
        origin,
        parent: parent.as_bytes().to_vec(),
        child: child.as_bytes().to_vec(),
    }
}

fn nothing() -> Triple {
    Triple { x: 0, y: 0, z: 0 }
}

fn plus_z() -> Triple {
    Triple { x: 0, y: 0, z: UNIT }
}

fn some_pose() -> Pose {
    Pose {
        xyz: Triple { x: to_fixed(0.5), y: to_fixed(-0.25), z: to_fixed(2.0) },
        rpy: Triple { x: to_fixed(0.1), y: to_fixed(0.2), z: to_fixed(0.3) },
    }
}

#[test]
fn root_is_placed_at_the_base() {
    let robot = RobotDescriptor::from_records(vec![body("root")], Vec::new()).unwrap();
    assert_eq!(robot.placements, vec![Placement::Base]);
    assert_eq!(world(&robot.placements)[0], glm::Mat4::identity());
}

#[test]
fn fixed_joint_places_child_at_its_origin() {
    let links = vec![body("root"), body("a"), body("b")];
    let joints = vec![
        hinge("spare", JointKind::Continuous { axis: plus_z() }, Pose { xyz: nothing(), rpy: nothing() }, "root", "b"),
        hinge("weld", JointKind::Fixed, some_pose(), "root", "a"),
    ];
    let mut robot = RobotDescriptor::from_records(links, joints).unwrap();
    let expected = pose_matrix(&some_pose());
    for value in [0.0, 1.0, -3.5, 100.0] {
        robot.set_joint_position(&[to_fixed(value)], false).unwrap();
        robot.build();
        let slot = robot.tree.slot[1];
        assert_eq!(
            robot.placements[slot],
            Placement::Joined { parent: 0, joint: 1, origin: some_pose(), motion: Motion::Still }
        );
        assert_eq!(world(&robot.placements)[slot], expected);
    }
}

#[test]
fn revolute_joint_turns_child_about_z() {
    let links = vec![body("root"), body("a")];
    let limits = Some(Limits { lower: to_fixed(-3.0), upper: to_fixed(3.0) });
    let joints = vec![hinge(
        "turn",
        JointKind::Revolute { axis: plus_z(), limits },
        Pose { xyz: nothing(), rpy: nothing() },
        "root",
        "a",
    )];
    let mut robot = RobotDescriptor::from_records(links, joints).unwrap();
    let quarter = to_fixed(std::f64::consts::FRAC_PI_2);
    assert_eq!(quarter, 1_570_796_327);
    robot.set_joint_position(&[quarter], true).unwrap();
    robot.build();
    assert_eq!(
        robot.placement_of(1),
        Placement::Joined {
            parent: 0,
            joint: 0,
            origin: Pose { xyz: nothing(), rpy: nothing() },
            motion: Motion::Turn { axis: plus_z(), angle: quarter },
        }
    );
    let got = world(&robot.placements)[1];
    let expected = glm::Mat4::new(
        0.0, -1.0, 0.0, 0.0,
        1.0,  0.0, 0.0, 0.0,
        0.0,  0.0, 1.0, 0.0,
        0.0,  0.0, 0.0, 1.0,
    );
    assert!(close(&got, &expected));
}

#[test]
fn origin_comes_before_motion() {
    // A child one metre along x, turned a quarter about z: the turn happens
    // in the joint's frame, so the child stays at (1, 0, 0).
    let links = vec![body("root"), body("a"), body("tip")];
    let shift = Pose { xyz: Triple { x: UNIT, y: 0, z: 0 }, rpy: nothing() };
    let joints = vec![
        hinge("turn", JointKind::Continuous { axis: plus_z() }, shift, "root", "a"),
        hinge("reach", JointKind::Fixed, shift, "a", "tip"),
    ];
    let mut robot = RobotDescriptor::from_records(links, joints).unwrap();
    robot.set_joint_position(&[to_fixed(std::f64::consts::FRAC_PI_2)], false).unwrap();
    robot.build();
    let poses = world(&robot.placements);
    let a = poses[robot.tree.slot[1]] * glm::vec4(0.0, 0.0, 0.0, 1.0);
    let tip = poses[robot.tree.slot[2]] * glm::vec4(0.0, 0.0, 0.0, 1.0);
    assert!((a - glm::vec4(1.0, 0.0, 0.0, 1.0)).abs().max() < 1e-6);
    assert!((tip - glm::vec4(1.0, 1.0, 0.0, 1.0)).abs().max() < 1e-6);
}

#[test]
fn prismatic_joint_slides_child_along_axis() {
    let links = vec![body("root"), body("a")];
    let joints = vec![hinge(
        "slide",
        JointKind::Prismatic { axis: plus_z(), limits: None },
        Pose { xyz: nothing(), rpy: nothing() },
        "root",
        "a",
    )];
    let mut robot = RobotDescriptor::from_records(links, joints).unwrap();
    robot.set_joint_position(&[to_fixed(0.75)], true).unwrap();
    robot.build();
    match robot.placements[1] {
        Placement::Joined { motion, .. } => {
            assert_eq!(motion, Motion::Slide { axis: plus_z(), distance: 750_000_000 })
        }
        Placement::Base => panic!("the child is not the root"),
    }
    let at = world(&robot.placements)[1] * glm::vec4(0.0, 0.0, 0.0, 1.0);
    assert!((at - glm::vec4(0.0, 0.0, 0.75, 1.0)).abs().max() < 1e-6);
}

#[test]
fn recompute_twice_gives_the_same() {
    let links = vec![body("root"), body("a"), body("b")];
    let joints = vec![
        hinge("j0", JointKind::Continuous { axis: plus_z() }, some_pose(), "root", "a"),
        hinge("j1", JointKind::Prismatic { axis: plus_z(), limits: None }, some_pose(), "a", "b"),
    ];
    let mut robot = RobotDescriptor::from_records(links, joints).unwrap();
    robot.set_joint_position(&[to_fixed(0.3), to_fixed(-0.1)], false).unwrap();
    let first = recompute(&robot.tree, &robot.state);
    let second = recompute(&robot.tree, &robot.state);
    assert_eq!(first, second);
    robot.build();
    let built = robot.placements.clone();
    robot.build();
    assert_eq!(robot.placements, built);
    assert_eq!(built, first);
    let a = world(&first);
    let b = world(&second);
    for k in 0..a.len() {
        assert_eq!(a[k], b[k]);
    }
}

#[test]
fn placements_refer_to_earlier_ones() {
    let links = vec![body("tip"), body("mid"), body("root")];
    let joints = vec![
        hinge("upper", JointKind::Fixed, some_pose(), "mid", "tip"),
        hinge("lower", JointKind::Continuous { axis: plus_z() }, some_pose(), "root", "mid"),
    ];
    let robot = RobotDescriptor::from_records(links, joints).unwrap();
    assert_eq!(robot.placements[0], Placement::Base);
    for (p, placed) in robot.placements.iter().enumerate().skip(1) {
        match placed {
            Placement::Joined { parent, joint, .. } => {
                assert!(*parent < p);
                assert_eq!(robot.tree.child_link[*joint], robot.tree.order[p]);
            }
            Placement::Base => panic!("only the root is the base"),
        }
    }
}
