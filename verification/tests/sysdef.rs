use t51core::sysdef::{
    check_entity_id, parse_raw_sys_def, parse_sys_def_tuple, GenericArg, Segment, SegmentArgs, SysDefError, SystemDef,
    TypeShape,
};

fn path(names: &[&str]) -> TypeShape {
    TypeShape::Path(names.iter().map(|n| Segment { name: n.to_string(), args: SegmentArgs::Plain }).collect())
}

fn reference(mutable: bool, name: &str) -> TypeShape {
    TypeShape::Ref(mutable, Box::new(path(&[name])))
}

fn system_data(elems: Vec<TypeShape>) -> Vec<Segment> {
    vec![
        Segment { name: "crate".to_string(), args: SegmentArgs::Plain },
        Segment { name: "SystemData".to_string(), args: SegmentArgs::Angle(vec![GenericArg::Type(TypeShape::Tuple(elems))]) },
    ]
}

#[test]
fn entity_id_is_recognised_by_any_segment() {
    assert!(check_entity_id(&path(&["t51core", "EntityId"])));
    assert!(!check_entity_id(&path(&["Position"])));
    assert!(!check_entity_id(&reference(false, "EntityId")));
}

#[test]
fn tuple_with_entity_id_skips_it() {
    let layout = parse_sys_def_tuple(&vec![path(&["EntityId"]), reference(false, "A"), reference(true, "B")]).unwrap();
    assert!(layout.provide_ent_id);
    assert_eq!(layout.mutability, vec![false, true]);
}

#[test]
fn tuple_without_entity_id_keeps_all_entries() {
    let layout = parse_sys_def_tuple(&vec![reference(true, "A"), reference(false, "B")]).unwrap();
    assert!(!layout.provide_ent_id);
    assert_eq!(layout.mutability, vec![true, false]);
}

#[test]
fn tuple_errors() {
    assert_eq!(parse_sys_def_tuple(&vec![]).err(), Some(SysDefError::NoComponent));
    assert_eq!(parse_sys_def_tuple(&vec![reference(false, "A"), path(&["B"])]).err(), Some(SysDefError::NotReference));
    assert_eq!(
        parse_sys_def_tuple(&vec![TypeShape::Ref(false, Box::new(TypeShape::Other)), path(&["B"])]).err(),
        Some(SysDefError::NotPathType)
    );
}

#[test]
fn raw_definition_finds_the_system_data_segment() {
    let (pos, layout) = parse_raw_sys_def(&system_data(vec![path(&["EntityId"]), reference(true, "A")])).unwrap();
    assert_eq!(pos, 1);
    assert!(layout.provide_ent_id);
    assert_eq!(layout.mutability, vec![true]);
}

#[test]
fn raw_definition_errors() {
    assert_eq!(parse_raw_sys_def(&vec![]).err(), Some(SysDefError::Missing));
    let no_args = vec![Segment { name: "SystemData".to_string(), args: SegmentArgs::Plain }];
    assert_eq!(parse_raw_sys_def(&no_args).err(), Some(SysDefError::Malformed));
    let two = vec![Segment {
        name: "SystemData".to_string(),
        args: SegmentArgs::Angle(vec![GenericArg::Other, GenericArg::Other]),
    }];
    assert_eq!(parse_raw_sys_def(&two).err(), Some(SysDefError::ArgumentCount));
    let not_tuple = vec![Segment {
        name: "SystemData".to_string(),
        args: SegmentArgs::Angle(vec![GenericArg::Type(path(&["A"]))]),
    }];
    assert_eq!(parse_raw_sys_def(&not_tuple).err(), Some(SysDefError::NotTuple));
}

#[test]
fn system_def_names_component_bindings() {
    let layout = parse_sys_def_tuple(&vec![reference(false, "A"), reference(true, "B"), reference(false, "C")]).unwrap();
    let def = SystemDef::new(layout);
    assert!(!def.provide_ent_id);
    assert_eq!(def.mutability, vec![false, true, false]);
    assert_eq!(def.comp_ident, vec!["comp_0".to_string(), "comp_1".to_string(), "comp_2".to_string()]);
}
