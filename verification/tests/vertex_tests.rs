use rigid_physics::vertex::{
    ActiveAttribute, ShaderValidationError, VertexLayout, FLOAT_VEC3, FLOAT_VEC4,
};
use rigid_physics::UserEvent;

fn attribute(name: &str, atype: u32) -> ActiveAttribute {
    ActiveAttribute { name: name.to_string(), atype }
}

#[test]
fn matching_layouts_are_accepted() {
    let pn = vec![attribute("position", FLOAT_VEC4), attribute("normal", FLOAT_VEC3)];
    assert!(VertexLayout::PositionNormal.validate_layout(&pn).is_ok());
    let p = vec![attribute("position", FLOAT_VEC3)];
    assert!(VertexLayout::Position.validate_layout(&p).is_ok());
}

#[test]
fn too_few_attributes_are_rejected() {
    let one = vec![attribute("position", FLOAT_VEC3)];
    assert!(matches!(
        VertexLayout::PositionNormal.validate_layout(&one),
        Err(ShaderValidationError::TooFewAttributes)
    ));
    assert!(matches!(
        VertexLayout::Position.validate_layout(&Vec::new()),
        Err(ShaderValidationError::TooFewAttributes)
    ));
}

#[test]
fn too_many_attributes_are_rejected() {
    let two = vec![attribute("position", FLOAT_VEC3), attribute("normal", FLOAT_VEC3)];
    assert!(matches!(
        VertexLayout::Position.validate_layout(&two),
        Err(ShaderValidationError::TooManyAttributes)
    ));
}

#[test]
fn the_first_wrong_type_is_reported_with_its_location() {
    let normal_as_vec4 = vec![attribute("position", FLOAT_VEC3), attribute("normal", FLOAT_VEC4)];
    match VertexLayout::PositionNormal.validate_layout(&normal_as_vec4) {
        Err(ShaderValidationError::TypeMismatch { location, attr_name }) => {
            assert_eq!(location, 1);
            assert_eq!(attr_name, "normal");
        }
        other => panic!("unexpected verdict {:?}", other),
    }
    let both_wrong = vec![attribute("position", 1), attribute("normal", 2)];
    match VertexLayout::PositionNormal.validate_layout(&both_wrong) {
        Err(ShaderValidationError::TypeMismatch { location, attr_name }) => {
            assert_eq!(location, 0);
            assert_eq!(attr_name, "position");
        }
        other => panic!("unexpected verdict {:?}", other),
    }
}

#[test]
fn messages_name_the_fault() {
    assert_eq!(
        ShaderValidationError::TooFewAttributes.message(),
        "Shader has too few attibutes!"
    );
    assert_eq!(
        ShaderValidationError::TooManyAttributes.message(),
        "Shader has too many attributes!"
    );
    let mismatch =
        ShaderValidationError::TypeMismatch { location: 1, attr_name: "normal".to_string() };
    assert_eq!(
        mismatch.message(),
        "Shader attribute `normal` has the wrong type (location=1)"
    );
}

#[test]
fn redraw_is_the_only_user_event() {
    assert!(matches!(UserEvent::Redraw, UserEvent::Redraw));
}
