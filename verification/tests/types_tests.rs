use typeflow::types::{AbstractEntity, EntityId, TypeError};

#[test]
fn entity_type_error_describes_itself() {
    assert_eq!(TypeError::Converge.message(), "unable to converge types.");
}

#[test]
fn entity_ids_compare_by_index() {
    assert_eq!(EntityId::new(5), EntityId::new(5));
    assert_ne!(EntityId::new(5), EntityId::new(6));
}

#[test]
fn entity_ids_convert_back_to_indices() {
    assert_eq!(usize::from(EntityId::new(7)), 7);
    let id: usize = EntityId::new(0).into();
    assert_eq!(id, 0);
}

#[derive(Clone, PartialEq, Eq, Debug)]
enum Scalar {
    Any,
    Bool,
    Int,
}

impl AbstractEntity for Scalar {
    fn unconstrained_type() -> Self {
        Scalar::Any
    }

    fn arity(&self) -> Option<usize> {
        None
    }

    fn converge(&self, other: &Self) -> Result<Self, TypeError> {
        match (self, other) {
            (Scalar::Any, _) => Ok(other.clone()),
            (_, Scalar::Any) => Ok(self.clone()),
            _ if self == other => Ok(self.clone()),
            _ => Err(TypeError::Converge),
        }
    }
}

#[test]
fn entities_converge_toward_the_constrained_side() {
    assert_eq!(Scalar::unconstrained_type(), Scalar::Any);
    assert_eq!(Scalar::Any.converge(&Scalar::Bool), Ok(Scalar::Bool));
    assert_eq!(Scalar::Bool.converge(&Scalar::Bool), Ok(Scalar::Bool));
    assert_eq!(Scalar::Bool.converge(&Scalar::Int), Err(TypeError::Converge));
    assert_eq!(Scalar::Int.arity(), None);
}
