use vstd::prelude::*;

verus! {

/// The type code of a three-component float vector attribute.
pub const FLOAT_VEC3: u32 = 0x8B51;

/// The type code of a four-component float vector attribute.
pub const FLOAT_VEC4: u32 = 0x8B52;

/// Why the attributes of a linked shader do not fit a vertex layout.
#[derive(Debug)]
pub enum ShaderValidationError {
    TooFewAttributes,
    TooManyAttributes,
    TypeMismatch { location: u32, attr_name: String },
}

/// An attribute that a linked shader reads: its name and its type code.
#[derive(Debug)]
pub struct ActiveAttribute {
    pub name: String,
    pub atype: u32,
}

/// The vertex layouts that meshes are uploaded in.
#[derive(Clone, Copy, Debug, PartialEq, Eq, Structural)]
pub enum VertexLayout {
    /// A position followed by a normal.
    PositionNormal,
    /// A position alone.
    Position,
}

impl VertexLayout {
    /// How many attributes a shader for this layout reads.
    pub open spec fn attribute_count(self) -> int {
        match self {
            VertexLayout::PositionNormal => 2,
            VertexLayout::Position => 1,
        }
    }

    /// Whether the attribute at `location` may have type code `atype`: a
    /// position may be read as a vector of three or four floats, a normal
    /// only as one of three.
    pub open spec fn accepts(self, location: int, atype: u32) -> bool {
        if location == 0 {
            atype == FLOAT_VEC3 || atype == FLOAT_VEC4
        } else {
            atype == FLOAT_VEC3
        }
    }

    /// The first location whose attribute has a type that the layout does
    /// not accept, if there is one among the first `upto` attributes.
    pub open spec fn first_mismatch(self, attributes: Seq<ActiveAttribute>, upto: int) -> Option<
        int,
    >
        decreases upto,
    {
        if upto <= 0 {
            None
        } else {
            match self.first_mismatch(attributes, upto - 1) {
                Some(location) => Some(location),
                None => if self.accepts(upto - 1, attributes[upto - 1].atype) {
                    None
                } else {
                    Some(upto - 1)
                },
            }
        }
    }

    /// Checks the active attributes of a linked shader against the layout:
    /// their number first, then the type of each in turn.
    pub fn validate_layout(self, attributes: &Vec<ActiveAttribute>) -> (verdict: Result<
        (),
        ShaderValidationError,
    >)
        ensures
            attributes@.len() < self.attribute_count() ==> verdict
                == Err::<(), ShaderValidationError>(ShaderValidationError::TooFewAttributes),
            attributes@.len() > self.attribute_count() ==> verdict
                == Err::<(), ShaderValidationError>(ShaderValidationError::TooManyAttributes),
            attributes@.len() == self.attribute_count() ==> match self.first_mismatch(
                attributes@,
                self.attribute_count(),
            ) {
                None => verdict == Ok::<(), ShaderValidationError>(()),
                Some(at) => match verdict {
                    Err(ShaderValidationError::TypeMismatch { location, attr_name }) => location
                        == at && attr_name@ == attributes@[at].name@,
                    _ => false,
                },
            },
    {
        let expected: usize = match self {
            VertexLayout::PositionNormal => 2,
            VertexLayout::Position => 1,
        };
        if attributes.len() < expected {
            return Err(ShaderValidationError::TooFewAttributes);
        }
        if attributes.len() > expected {
            return Err(ShaderValidationError::TooManyAttributes);
        }
        let mut location: usize = 0;
        while location < expected
            invariant
                0 <= location <= expected,
                expected == self.attribute_count(),
                expected == attributes@.len(),
                expected <= 2,
                self.first_mismatch(attributes@, location as int) == None::<int>,
            decreases expected - location,
        {
            let atype = attributes[location].atype;
            let accepted = if location == 0 {
                atype == FLOAT_VEC3 || atype == FLOAT_VEC4
            } else {
                atype == FLOAT_VEC3
            };
            if !accepted {
                proof {
                    assert(self.first_mismatch(attributes@, location + 1) == Some(location as int));
                    if location + 1 < expected {
                        assert(self.first_mismatch(attributes@, expected as int) == Some(
                            location as int,
                        ));
                    }
                }
                return Err(
                    ShaderValidationError::TypeMismatch {
                        location: location as u32,
                        attr_name: attributes[location].name.clone(),
                    },
                );
            }
            location += 1;
        }
        Ok(())
    }
}

impl ShaderValidationError {
    /// The text shown for the error.
    pub fn message(&self) -> (text: String)
        ensures
            self is TooFewAttributes ==> text@ == "Shader has too few attibutes!"@,
            self is TooManyAttributes ==> text@ == "Shader has too many attributes!"@,
    {
        match self {
            ShaderValidationError::TooFewAttributes => "Shader has too few attibutes!".to_owned(),
            ShaderValidationError::TooManyAttributes => {
                "Shader has too many attributes!".to_owned()
            },
            ShaderValidationError::TypeMismatch { location, attr_name } => mismatch_text(
                *location,
                attr_name,
            ),
        }
    }
}

/// Builds the text for a type mismatch with `format!` of the standard
/// library. Nothing is claimed of the text.
#[verifier::external_body]
fn mismatch_text(location: u32, attr_name: &String) -> (text: String) {
    format!("Shader attribute `{attr_name}` has the wrong type (location={location})")
}

} // verus!
