use wgpu_robotic_simulator::description::parse;
use wgpu_robotic_simulator::markup::{lex, locate, nest, Location, ParseError, ParseFault, Span, Token};
use wgpu_robotic_simulator::model::{Inertia, JointKind, Limits, Pose, Shape, Triple};
use wgpu_robotic_simulator::numbers::{parse_real, parse_triple, scan, Class};
use wgpu_robotic_simulator::query::Markup;
use wgpu_robotic_simulator::robot::{LoadError, RobotDescriptor};
use wgpu_robotic_simulator::tree::BuildError;

fn bytes(s: &str) -> Vec<u8> {
    s.as_bytes().to_vec()
}

fn fault_of(text: &str) -> ParseFault {
    parse(bytes(text)).err().map(|e| e.fault).unwrap()
}

const ARM: &str = r#"<?xml version="1.0"?>
<!-- a small arm -->
<robot name="arm">
  <link name="base">
    <inertial>
      <origin xyz="0 0 0.5" rpy="0 0 0"/>
      <mass value="2.5"/>
      <inertia ixx="0.1" ixy="0" ixz="0" iyy="0.2" iyz="-0.01" izz="0.3"/>
    </inertial>
    <visual>
      <origin xyz="0 0 0.1"/>
      <geometry><box size="1 2 3"/></geometry>
      <material name="grey"/>
    </visual>
    <collision>
      <geometry><cylinder radius="0.5" length="1.25"/></geometry>
    </collision>
  </link>
  <link name="upper">
    <visual><geometry><mesh filename="upper.stl"/></geometry></visual>
    <visual><geometry><sphere radius="0.125"/></geometry></visual>
  </link>
  <link name="tool"/>
  <joint name="shoulder" type="revolute">
    <parent link="base"/>
    <child link="upper"/>
    <origin xyz="0 0 1" rpy="0 1.5 0"/>
    <axis xyz="0 0 1"/>
    <limit lower="-1.0" upper="1.0" effort="10"/>
  </joint>
  <joint name="mount" type='fixed'>
    <parent link="upper"/>
    <child link="tool"/>
  </joint>
</robot>
"#;

#[test]
fn numerals_are_read_exactly() {
    assert_eq!(parse_real(&bytes("1.5")), Some(1_500_000_000));
    assert_eq!(parse_real(&bytes("-0.25")), Some(-250_000_000));
    assert_eq!(parse_real(&bytes("+3")), Some(3_000_000_000));
    assert_eq!(parse_real(&bytes(".5")), Some(500_000_000));
    assert_eq!(parse_real(&bytes("5.")), Some(5_000_000_000));
    assert_eq!(parse_real(&bytes("0")), Some(0));
    assert_eq!(parse_real(&bytes("-0")), Some(0));
    assert_eq!(parse_real(&bytes("3.14159265358979")), Some(3_141_592_653));
    assert_eq!(parse_real(&bytes("0.000000001")), Some(1));
    assert_eq!(parse_real(&bytes("0.0000000009")), Some(0));
    assert_eq!(parse_real(&bytes("000012.50")), Some(12_500_000_000));
}

#[test]
fn exponents_move_the_point() {
    assert_eq!(parse_real(&bytes("1e3")), Some(1_000_000_000_000));
    assert_eq!(parse_real(&bytes("2E2")), Some(200_000_000_000));
    assert_eq!(parse_real(&bytes("1.5e-3")), Some(1_500_000));
    assert_eq!(parse_real(&bytes("-1.5E+1")), Some(-15_000_000_000));
    assert_eq!(parse_real(&bytes("123e-2")), Some(1_230_000_000));
    assert_eq!(parse_real(&bytes("0.5e1")), Some(5_000_000_000));
    assert_eq!(parse_real(&bytes("12.5e0")), Some(12_500_000_000));
    assert_eq!(parse_real(&bytes("1e-9")), Some(1));
    assert_eq!(parse_real(&bytes("1e-10")), Some(0));
    assert_eq!(parse_real(&bytes("123456789e-17")), Some(1));
    assert_eq!(parse_real(&bytes("9e9")), Some(9_000_000_000_000_000_000));
    assert_eq!(parse_real(&bytes("0e30")), Some(0));
    assert_eq!(parse_real(&bytes("1e-30")), Some(0));
    assert_eq!(parse_real(&bytes("1e10")), None);
    assert_eq!(parse_real(&bytes("1e31")), None);
    assert_eq!(parse_real(&bytes("1e-31")), None);
    assert_eq!(parse_real(&bytes("0.000000001e9")), Some(1_000_000_000));
}

#[test]
fn numerals_have_a_largest_whole_part() {
    assert_eq!(parse_real(&bytes("9000000000")), Some(9_000_000_000_000_000_000));
    assert_eq!(parse_real(&bytes("9000000000.999999999")), Some(9_000_000_000_999_999_999));
    assert_eq!(parse_real(&bytes("-9000000000")), Some(-9_000_000_000_000_000_000));
    assert_eq!(parse_real(&bytes("9000000001")), None);
    assert_eq!(parse_real(&bytes("99999999999999999999999999999999")), None);
}

#[test]
fn what_is_no_numeral_is_refused() {
    for text in [
        "", "-", "+", ".", "-.", "abc", "1.2.3", "1 ", " 1", "--1", "1,5", "0x10", "e5", "1e", "1e+",
        "1e-", ".e1", "1e2.5", "1e2e3", "1f3",
    ] {
        assert_eq!(parse_real(&bytes(text)), None, "{:?}", text);
    }
}

#[test]
fn triples_are_three_numerals() {
    assert_eq!(
        parse_triple(&bytes("1 -2.5 0.125")),
        Some(Triple { x: 1_000_000_000, y: -2_500_000_000, z: 125_000_000 })
    );
    assert_eq!(
        parse_triple(&bytes("  0\t0 \n 1  ")),
        Some(Triple { x: 0, y: 0, z: 1_000_000_000 })
    );
    assert_eq!(parse_triple(&bytes("1 2")), None);
    assert_eq!(parse_triple(&bytes("1 2 3 4")), None);
    assert_eq!(parse_triple(&bytes("1 two 3")), None);
    assert_eq!(parse_triple(&bytes("")), None);
}

#[test]
fn scan_stops_at_the_first_byte_of_another_class() {
    let text = bytes("123abc  x");
    assert_eq!(scan(&text, 0, Class::Digit), 3);
    assert_eq!(scan(&text, 3, Class::Digit), 3);
    assert_eq!(scan(&text, 3, Class::Name), 6);
    assert_eq!(scan(&text, 6, Class::Space), 8);
    assert_eq!(scan(&text, 8, Class::Word), 9);
    assert_eq!(scan(&text, 9, Class::Word), 9);
}

#[test]
fn tags_become_tokens() {
    let text = bytes("<a x=\"1\"><b/></a>");
    let tokens = lex(&text).unwrap();
    assert_eq!(
        tokens,
        vec![
            Token::Open { name: Span { from: 1, to: 2 } },
            Token::Attr { name: Span { from: 3, to: 4 }, value: Span { from: 6, to: 7 } },
            Token::Open { name: Span { from: 10, to: 11 } },
            Token::CloseSelf { at: 12 },
            Token::Close { name: Span { from: 15, to: 16 } },
        ]
    );
    let owners = nest(&text, &tokens).unwrap();
    assert_eq!(owners, vec![None, Some(0), Some(0), Some(2), Some(0)]);
}

#[test]
fn comments_and_declarations_are_passed_over() {
    let text = bytes("<?xml version=\"1.0\"?><!DOCTYPE robot><!-- <x> -- - --><r></r> tail");
    let tokens = lex(&text).unwrap();
    assert_eq!(tokens.len(), 2);
    let m = Markup::read(text).unwrap();
    assert_eq!(m.owners, vec![None, Some(0)]);
}

#[test]
fn bad_bytes_are_malformed() {
    assert_eq!(lex(&bytes("<a =>")), Err(ParseError { fault: ParseFault::Malformed, at: 3 }));
    assert_eq!(lex(&bytes("< a>")), Err(ParseError { fault: ParseFault::Malformed, at: 1 }));
    assert_eq!(lex(&bytes("<a x=1>")), Err(ParseError { fault: ParseFault::Malformed, at: 5 }));
    assert_eq!(lex(&bytes("<a/ >")), Err(ParseError { fault: ParseFault::Malformed, at: 3 }));
    assert_eq!(fault_of("<robot><link name=base/></robot>"), ParseFault::Malformed);
}

#[test]
fn text_that_ends_early_is_refused() {
    assert_eq!(lex(&bytes("<a x=\"1")), Err(ParseError { fault: ParseFault::Unterminated, at: 7 }));
    assert_eq!(lex(&bytes("<!-- never closed")).err().map(|e| e.fault), Some(ParseFault::Unterminated));
    assert_eq!(
        parse(bytes("<robot><link name=\"a\">")).err(),
        Some(ParseError { fault: ParseFault::Unclosed, at: 3 })
    );
}

#[test]
fn wrong_closing_tag_is_mismatched() {
    assert_eq!(
        parse(bytes("<robot><link name=\"a\"></joint></robot>")).err(),
        Some(ParseError { fault: ParseFault::Mismatched, at: 3 })
    );
    assert_eq!(fault_of("</robot>"), ParseFault::Mismatched);
    assert_eq!(fault_of("<robot/></robot>"), ParseFault::Mismatched);
}

#[test]
fn text_without_robot_element_is_refused() {
    assert_eq!(parse(bytes("")).err(), Some(ParseError { fault: ParseFault::NoRobot, at: 0 }));
    assert_eq!(fault_of("<model><robot/></model>"), ParseFault::NoRobot);
}

#[test]
fn link_without_name_is_missing_a_field() {
    assert_eq!(
        parse(bytes("<robot><link name=\"a\"/><link/></robot>")).err(),
        Some(ParseError { fault: ParseFault::MissingField, at: 4 })
    );
}

#[test]
fn joint_without_parent_or_child_is_missing_a_field() {
    let no_child = "<robot><link name=\"a\"/><joint name=\"j\" type=\"fixed\"><parent link=\"a\"/></joint></robot>";
    assert_eq!(fault_of(no_child), ParseFault::MissingField);
    let no_parent = "<robot><link name=\"a\"/><joint name=\"j\" type=\"fixed\"><child link=\"a\"/></joint></robot>";
    assert_eq!(fault_of(no_parent), ParseFault::MissingField);
    let no_type = "<robot><joint name=\"j\"><parent link=\"a\"/><child link=\"b\"/></joint></robot>";
    assert_eq!(fault_of(no_type), ParseFault::MissingField);
    let no_name = "<robot><joint type=\"fixed\"><parent link=\"a\"/><child link=\"b\"/></joint></robot>";
    assert_eq!(fault_of(no_name), ParseFault::MissingField);
}

#[test]
fn unknown_joint_type_is_refused() {
    let text = "<robot><joint name=\"j\" type=\"floating\"><parent link=\"a\"/><child link=\"b\"/></joint></robot>";
    assert_eq!(parse(bytes(text)).err(), Some(ParseError { fault: ParseFault::UnknownJointType, at: 1 }));
}

#[test]
fn non_numeric_components_are_refused() {
    let axis = "<robot><joint name=\"j\" type=\"revolute\"><parent link=\"a\"/><child link=\"b\"/><axis xyz=\"0 0 up\"/></joint></robot>";
    assert_eq!(fault_of(axis), ParseFault::NotANumber);
    let origin = "<robot><joint name=\"j\" type=\"fixed\"><parent link=\"a\"/><child link=\"b\"/><origin rpy=\"0 0\"/></joint></robot>";
    assert_eq!(fault_of(origin), ParseFault::NotANumber);
    let limit = "<robot><joint name=\"j\" type=\"prismatic\"><parent link=\"a\"/><child link=\"b\"/><limit lower=\"low\"/></joint></robot>";
    assert_eq!(fault_of(limit), ParseFault::NotANumber);
    let size = "<robot><link name=\"a\"><visual><geometry><box size=\"1 1\"/></geometry></visual></link></robot>";
    assert_eq!(fault_of(size), ParseFault::NotANumber);
}

#[test]
fn movable_joint_needs_a_direction() {
    let text = "<robot><joint name=\"j\" type=\"revolute\"><parent link=\"a\"/><child link=\"b\"/><axis xyz=\"0 0 0\"/></joint></robot>";
    assert_eq!(parse(bytes(text)).err(), Some(ParseError { fault: ParseFault::ZeroAxis, at: 1 }));
    let fixed = "<robot><joint name=\"j\" type=\"fixed\"><parent link=\"a\"/><child link=\"b\"/><axis xyz=\"0 0 0\"/></joint></robot>";
    assert!(parse(bytes(fixed)).is_ok());
    let inertia = "<robot><link name=\"a\"><inertial><inertia ixx=\"heavy\"/></inertial></link></robot>";
    assert_eq!(fault_of(inertia), ParseFault::NotANumber);
}

#[test]
fn faults_are_located_by_line() {
    let text = bytes("<robot>\n  <link name=\"a\"/>\n  <link/>\n</robot>\n");
    let e = parse(text.clone()).err().unwrap();
    assert_eq!(e, ParseError { fault: ParseFault::MissingField, at: 4 });
    assert_eq!(locate(&text, e), Location { line: 2, offset: 30 });
    let broken = bytes("<robot>\n<link name=a/>");
    let e = parse(broken.clone()).err().unwrap();
    assert_eq!(e.fault, ParseFault::Malformed);
    assert_eq!(locate(&broken, e), Location { line: 1, offset: 19 });
    let open = bytes("<robot>\n\n");
    let e = parse(open.clone()).err().unwrap();
    assert_eq!(locate(&open, e), Location { line: 2, offset: 9 });
}

#[test]
fn first_fault_wins() {
    // The link's fault comes before the joint's, whatever the order in the text.
    // Tokens: robot, joint, name, type, "/>", link, ...: the link is token 5.
    let text = "<robot><joint name=\"j\" type=\"odd\"/><link/></robot>";
    assert_eq!(parse(bytes(text)).err(), Some(ParseError { fault: ParseFault::MissingField, at: 5 }));
}

#[test]
fn records_keep_the_order_of_the_text() {
    let d = parse(bytes(ARM)).unwrap();
    let names: Vec<&[u8]> = d.links.iter().map(|l| l.name.as_slice()).collect();
    assert_eq!(names, vec![&b"base"[..], &b"upper"[..], &b"tool"[..]]);
    let names: Vec<&[u8]> = d.joints.iter().map(|j| j.name.as_slice()).collect();
    assert_eq!(names, vec![&b"shoulder"[..], &b"mount"[..]]);
}

#[test]
fn link_contents_are_read() {
    let d = parse(bytes(ARM)).unwrap();
    let zero = Triple { x: 0, y: 0, z: 0 };
    let base = &d.links[0];
    let inertial = base.inertial.unwrap();
    assert_eq!(inertial.mass, 2_500_000_000);
    assert_eq!(inertial.origin.xyz, Triple { x: 0, y: 0, z: 500_000_000 });
    assert_eq!(
        inertial.inertia,
        Inertia { ixx: 100_000_000, ixy: 0, ixz: 0, iyy: 200_000_000, iyz: -10_000_000, izz: 300_000_000 }
    );
    assert_eq!(base.visuals.len(), 1);
    assert_eq!(base.visuals[0].origin, Pose { xyz: Triple { x: 0, y: 0, z: 100_000_000 }, rpy: zero });
    assert_eq!(base.visuals[0].material, b"grey".to_vec());
    match &base.visuals[0].shape {
        Shape::Cuboid { size } => {
            assert_eq!(*size, Triple { x: 1_000_000_000, y: 2_000_000_000, z: 3_000_000_000 })
        }
        other => panic!("{:?}", other),
    }
    match &base.collisions[0].shape {
        Shape::Cylinder { radius, length } => {
            assert_eq!((*radius, *length), (500_000_000, 1_250_000_000))
        }
        other => panic!("{:?}", other),
    }
    assert!(base.collisions[0].material.is_empty());
    let upper = &d.links[1];
    assert!(upper.inertial.is_none());
    assert_eq!(upper.visuals.len(), 2);
    match &upper.visuals[0].shape {
        Shape::Mesh { file } => assert_eq!(file, &b"upper.stl".to_vec()),
        other => panic!("{:?}", other),
    }
    match &upper.visuals[1].shape {
        Shape::Sphere { radius } => assert_eq!(*radius, 125_000_000),
        other => panic!("{:?}", other),
    }
    assert!(d.links[2].visuals.is_empty() && d.links[2].collisions.is_empty());
}

#[test]
fn joint_contents_are_read() {
    let d = parse(bytes(ARM)).unwrap();
    let zero = Triple { x: 0, y: 0, z: 0 };
    let shoulder = &d.joints[0];
    assert_eq!(shoulder.parent, b"base".to_vec());
    assert_eq!(shoulder.child, b"upper".to_vec());
    assert_eq!(
        shoulder.origin,
        Pose {
            xyz: Triple { x: 0, y: 0, z: 1_000_000_000 },
            rpy: Triple { x: 0, y: 1_500_000_000, z: 0 }
        }
    );
    assert_eq!(
        shoulder.kind,
        JointKind::Revolute {
            axis: Triple { x: 0, y: 0, z: 1_000_000_000 },
            limits: Some(Limits { lower: -1_000_000_000, upper: 1_000_000_000 }),
        }
    );
    let mount = &d.joints[1];
    assert_eq!(mount.kind, JointKind::Fixed);
    assert_eq!(mount.origin, Pose { xyz: zero, rpy: zero });
}

#[test]
fn joint_defaults() {
    let text = "<robot><joint name=\"j\" type=\"continuous\"><parent link=\"a\"/><child link=\"b\"/></joint>\
                <joint name=\"k\" type=\"prismatic\"><parent link=\"a\"/><child link=\"b\"/><limit upper=\"2\"/></joint></robot>";
    let d = parse(bytes(text)).unwrap();
    let x = Triple { x: 1_000_000_000, y: 0, z: 0 };
    assert_eq!(d.joints[0].kind, JointKind::Continuous { axis: x });
    assert_eq!(
        d.joints[1].kind,
        JointKind::Prismatic { axis: x, limits: Some(Limits { lower: 0, upper: 2_000_000_000 }) }
    );
}

#[test]
fn robot_is_loaded_from_text() {
    let mut robot = RobotDescriptor::from_text(bytes(ARM)).unwrap();
    assert_eq!(robot.tree.root, 0);
    assert_eq!(robot.tree.order, vec![0, 1, 2]);
    assert_eq!(robot.joint_count(), 1);
    robot.set_joint_position(&[5_000_000_000], true).unwrap();
    assert_eq!(robot.state.get(0), 1_000_000_000);
    robot.build();
    assert_eq!(robot.placements.len(), 3);
}

#[test]
fn loading_reports_both_kinds_of_fault() {
    assert_eq!(
        RobotDescriptor::from_text(bytes("<robot>")).err(),
        Some(LoadError::Parse(ParseError { fault: ParseFault::Unclosed, at: 1 }))
    );
    let two_parents = "<robot><link name=\"a\"/><link name=\"b\"/><link name=\"c\"/>\
        <joint name=\"j0\" type=\"fixed\"><parent link=\"a\"/><child link=\"c\"/></joint>\
        <joint name=\"j1\" type=\"fixed\"><parent link=\"b\"/><child link=\"c\"/></joint></robot>";
    assert_eq!(
        RobotDescriptor::from_text(bytes(two_parents)).err(),
        Some(LoadError::Build(BuildError::MultipleParents(2)))
    );
    let no_root = "<robot><link name=\"a\"/>\
        <joint name=\"j0\" type=\"fixed\"><parent link=\"a\"/><child link=\"a\"/></joint></robot>";
    assert_eq!(
        RobotDescriptor::from_text(bytes(no_root)).err(),
        Some(LoadError::Build(BuildError::NoRoot))
    );
    let dangling = "<robot><link name=\"a\"/>\
        <joint name=\"j0\" type=\"fixed\"><parent link=\"a\"/><child link=\"b\"/></joint></robot>";
    assert_eq!(
        RobotDescriptor::from_text(bytes(dangling)).err(),
        Some(LoadError::Build(BuildError::DanglingReference(0)))
    );
}
