use draco_rs::attribute::{Attribute, AttributeCollection, AttributeError, AttributeId, AttributeType};
use draco_rs::attribute::MaybeInitAttribute;
use draco_rs::buffer::ComponentDataType;

fn f32_bits(x: f32) -> u64 {
    x.to_bits() as u64
}

fn f32_value(a: f32, b: f32, c: f32) -> Vec<u64> {
    vec![f32_bits(a), f32_bits(b), f32_bits(c)]
}

#[test]
fn test_attribute() {
    let data = vec![
        f32_value(1.0, 2.0, 3.0),
        f32_value(4.0, 5.0, 6.0),
        f32_value(7.0, 8.0, 9.0),
    ];
    let att = Attribute::from(
        AttributeId::new(0),
        data.clone(),
        ComponentDataType::F32,
        3,
        AttributeType::Position,
        Vec::new(),
    );
    assert_eq!(att.len(), data.len());
    assert_eq!(att.get(0), data[0]);
    assert_eq!(att.get_component_type(), ComponentDataType::F32);
    assert_eq!(att.get_num_components(), 3);
    assert_eq!(att.get_attribute_type(), AttributeType::Position);
}

#[test]
fn test_buffer_round_trip_u16() {
    let data = vec![vec![1u64, 2u64], vec![65535u64, 0u64], vec![256u64, 511u64]];
    let att = Attribute::from(
        AttributeId::new(7),
        data.clone(),
        ComponentDataType::U16,
        2,
        AttributeType::Custom,
        Vec::new(),
    );
    assert_eq!(att.len(), 3);
    for i in 0..3 {
        assert_eq!(att.get(i), data[i]);
    }
    assert_eq!(att.get_id().as_usize(), 7);
}

#[test]
fn test_slice_view_matches_get() {
    let data = vec![vec![10u64], vec![20u64], vec![30u64], vec![40u64]];
    let att = Attribute::from(
        AttributeId::new(1),
        data.clone(),
        ComponentDataType::U64,
        1,
        AttributeType::Custom,
        Vec::new(),
    );
    let slice = att.as_slice();
    assert_eq!(slice.len(), att.len());
    for i in 0..att.len() {
        assert_eq!(slice[i], att.get(i));
    }
}

#[test]
fn test_component_type_id_bijection() {
    let all = [
        ComponentDataType::F32,
        ComponentDataType::F64,
        ComponentDataType::U8,
        ComponentDataType::U16,
        ComponentDataType::U32,
        ComponentDataType::U64,
    ];
    for v in all {
        assert_eq!(ComponentDataType::from_id(v.get_id()), Ok(v));
    }
    for id in 0..6 {
        assert_eq!(ComponentDataType::from_id(id).unwrap().get_id(), id);
    }
    assert!(ComponentDataType::from_id(6).is_err());
}

#[test]
fn test_component_type_sizes() {
    assert_eq!(ComponentDataType::F32.size(), 4);
    assert_eq!(ComponentDataType::F64.size(), 8);
    assert_eq!(ComponentDataType::U8.size(), 1);
    assert_eq!(ComponentDataType::U16.size(), 2);
    assert_eq!(ComponentDataType::U32.size(), 4);
    assert_eq!(ComponentDataType::U64.size(), 8);
}

#[test]
fn test_attribute_type_id_bijection() {
    let all = [
        AttributeType::Position,
        AttributeType::Normal,
        AttributeType::Color,
        AttributeType::TextureCoordinate,
        AttributeType::Tangent,
        AttributeType::Material,
        AttributeType::Joint,
        AttributeType::Weight,
        AttributeType::Connectivity,
        AttributeType::Custom,
    ];
    for v in all {
        assert_eq!(AttributeType::from_id(v.get_id()), Ok(v));
    }
    for id in 0..10 {
        assert_eq!(AttributeType::from_id(id).unwrap().get_id(), id);
    }
    assert!(AttributeType::from_id(10).is_err());
}

#[test]
fn test_minimum_dependencies() {
    assert_eq!(AttributeType::Position.get_minimum_dependency(), Vec::new());
    assert_eq!(
        AttributeType::Normal.get_minimum_dependency(),
        vec![AttributeType::Connectivity]
    );
    assert_eq!(
        AttributeType::TextureCoordinate.get_minimum_dependency(),
        vec![AttributeType::Position, AttributeType::Connectivity]
    );
}

#[test]
fn test_missing_dependency_rejected() {
    let mut coll = AttributeCollection::new();
    let r = coll.insert(
        vec![f32_value(0.0, 0.0, 1.0)],
        ComponentDataType::F32,
        3,
        AttributeType::Normal,
        Vec::new(),
    );
    assert_eq!(
        r,
        Err(AttributeError::MissingDependency(AttributeType::Connectivity))
    );
}

#[test]
fn test_dependency_satisfied_accepted() {
    let mut coll = AttributeCollection::new();
    let conn = coll
        .insert(
            vec![vec![0u64, 1u64, 2u64]],
            ComponentDataType::U64,
            3,
            AttributeType::Connectivity,
            Vec::new(),
        )
        .unwrap();
    let normal = coll.insert(
        vec![f32_value(0.0, 0.0, 1.0)],
        ComponentDataType::F32,
        3,
        AttributeType::Normal,
        vec![conn],
    );
    assert!(normal.is_ok());

    let tex_missing = coll.insert(
        vec![vec![f32_bits(0.5), f32_bits(0.5)]],
        ComponentDataType::F32,
        2,
        AttributeType::TextureCoordinate,
        vec![conn],
    );
    assert_eq!(
        tex_missing,
        Err(AttributeError::MissingDependency(AttributeType::Position))
    );

    let pos = coll
        .insert(
            vec![f32_value(1.0, 2.0, 3.0)],
            ComponentDataType::F32,
            3,
            AttributeType::Position,
            Vec::new(),
        )
        .unwrap();
    let tex = coll.insert(
        vec![vec![f32_bits(0.5), f32_bits(0.5)]],
        ComponentDataType::F32,
        2,
        AttributeType::TextureCoordinate,
        vec![pos, conn],
    );
    assert!(tex.is_ok());
}

#[test]
fn test_unknown_parent_rejected() {
    let mut coll = AttributeCollection::new();
    let bogus = AttributeId::new(99);
    let r = coll.insert(
        vec![f32_value(0.0, 0.0, 1.0)],
        ComponentDataType::F32,
        3,
        AttributeType::Custom,
        vec![bogus],
    );
    assert_eq!(r, Err(AttributeError::UnknownParent(bogus)));
}

#[test]
fn test_topological_order() {
    let mut coll = AttributeCollection::new();
    let conn = coll
        .insert(
            vec![vec![0u64, 1u64, 2u64]],
            ComponentDataType::U64,
            3,
            AttributeType::Connectivity,
            Vec::new(),
        )
        .unwrap();
    coll.insert(
        vec![f32_value(0.0, 1.0, 0.0)],
        ComponentDataType::F32,
        3,
        AttributeType::Normal,
        vec![conn],
    )
    .unwrap();
    let order = coll.topological_order();
    assert_eq!(order.len(), 2);
    for (i, id) in order.iter().enumerate() {
        assert_eq!(id.as_usize(), i);
        let att = coll.attribute(*id);
        for p in att.get_parents() {
            assert!(p.as_usize() < i);
        }
    }
}

#[test]
fn test_maybe_init_write_and_promote() {
    let mut att = MaybeInitAttribute::new(
        AttributeId::new(0),
        AttributeType::Custom,
        2,
        ComponentDataType::U8,
        2,
        Vec::new(),
    );
    assert_eq!(att.len(), 2);
    assert_eq!(att.get_component_type(), ComponentDataType::U8);
    assert_eq!(att.get_num_components(), 2);

    assert_eq!(att.write(0, &vec![1u64, 2u64]), Ok(()));
    assert_eq!(att.write(0, &vec![1u64]), Err(AttributeError::WrongArity));
    assert_eq!(
        att.write(0, &vec![256u64, 0u64]),
        Err(AttributeError::WrongComponentType)
    );
    assert_eq!(
        att.write(2, &vec![1u64, 2u64]),
        Err(AttributeError::OutOfBounds)
    );

    assert_eq!(att.write(1, &vec![3u64, 4u64]), Ok(()));
    let done = att.into_initialized().unwrap();
    assert_eq!(done.get(0), vec![1u64, 2u64]);
    assert_eq!(done.get(1), vec![3u64, 4u64]);
}

#[test]
fn test_maybe_init_uninitialized_cell() {
    let mut att = MaybeInitAttribute::new(
        AttributeId::new(0),
        AttributeType::Custom,
        3,
        ComponentDataType::U32,
        1,
        Vec::new(),
    );
    att.write(0, &vec![7u64]).unwrap();
    att.write(2, &vec![9u64]).unwrap();
    let r = att.into_initialized();
    assert!(matches!(r, Err(AttributeError::UninitializedCell)));
}
