use typeflow::{AbstractTypes, TypeChecker, TypeError, Use, Value};

#[derive(Debug, Clone, PartialEq, Eq)]
pub enum AbstractTypeValue {
    VBool,
    VInteger,
    VFloat,
    VString,
}

#[derive(Debug, Clone, PartialEq, Eq)]
pub enum AbstractTypeUse {
    UBool,
    UInteger,
    UFloat,
    UString,
}

#[derive(Debug)]
pub struct LiteralTypeSystem;

impl AbstractTypes<AbstractTypeValue, AbstractTypeUse> for LiteralTypeSystem {
    type Error = TypeError;

    fn meet(
        lhs: &AbstractTypeValue,
        rhs: &AbstractTypeUse,
    ) -> Result<Vec<(Value, Use)>, Self::Error> {
        let out = vec![];
        match (lhs, rhs) {
            (&AbstractTypeValue::VBool, &AbstractTypeUse::UBool) => Ok(out),
            (&AbstractTypeValue::VInteger, &AbstractTypeUse::UInteger) => Ok(out),
            (&AbstractTypeValue::VFloat, &AbstractTypeUse::UFloat) => Ok(out),
            (&AbstractTypeValue::VString, &AbstractTypeUse::UString) => Ok(out),
            _ => Err(TypeError::Converge),
        }
    }
}

#[test]
fn type_match() {
    let mut t = TypeChecker::new(LiteralTypeSystem);
    let vid = t.new_val(AbstractTypeValue::VBool);
    let uid = t.new_use(AbstractTypeUse::UBool);
    assert!(t.flow(vid, uid).is_ok());
}

#[test]
fn type_mismatch() {
    let mut t = TypeChecker::new(LiteralTypeSystem);
    let vid = t.new_val(AbstractTypeValue::VBool);
    let uid = t.new_use(AbstractTypeUse::UFloat);
    assert!(t.flow(vid, uid).is_err());
}

#[test]
fn convergence_error_describes_itself() {
    assert_eq!(TypeError::Converge.message(), "unable to converge types.");
}

#[test]
fn failure_leaves_solver_usable() {
    let mut t = TypeChecker::new(LiteralTypeSystem);
    let vid = t.new_val(AbstractTypeValue::VBool);
    let uid = t.new_use(AbstractTypeUse::UFloat);
    assert_eq!(t.flow(vid, uid), Err(TypeError::Converge));
    // The failed assertion is kept, but unrelated assertions on the same
    // solver still behave correctly afterwards.
    let v2 = t.new_val(AbstractTypeValue::VString);
    let u2 = t.new_use(AbstractTypeUse::UString);
    assert!(t.flow(v2, u2).is_ok());
    let u3 = t.new_use(AbstractTypeUse::UInteger);
    assert!(t.flow(v2, u3).is_err());
}

#[test]
fn placeholder_forwards_matching_flow() {
    let mut t = TypeChecker::new(LiteralTypeSystem);
    let vid = t.new_val(AbstractTypeValue::VBool);
    let (pv, pu) = t.var();
    let uid = t.new_use(AbstractTypeUse::UBool);
    // Both roles of the placeholder name one node, so the value reaches the
    // use through it and the compatible pair converges.
    assert!(t.flow(vid, pu).is_ok());
    assert!(t.flow(pv, uid).is_ok());
}

#[test]
fn placeholder_forwards_mismatched_flow() {
    let mut t = TypeChecker::new(LiteralTypeSystem);
    let vid = t.new_val(AbstractTypeValue::VBool);
    let (pv, pu) = t.var();
    let uid = t.new_use(AbstractTypeUse::UFloat);
    assert!(t.flow(vid, pu).is_ok());
    // The implied value/use pair surfaces only when the second assertion
    // links the placeholder to the incompatible use.
    assert_eq!(t.flow(pv, uid), Err(TypeError::Converge));
}

#[test]
fn placeholder_checks_both_directions() {
    let mut t = TypeChecker::new(LiteralTypeSystem);
    let (pv, pu) = t.var();
    let uid = t.new_use(AbstractTypeUse::UBool);
    assert!(t.flow(pv, uid).is_ok());
    // A value arriving later still meets the use already downstream of the
    // placeholder.
    let vid = t.new_val(AbstractTypeValue::VFloat);
    assert!(t.flow(vid, pu).is_err());
}

/// A lattice whose merge always fails: any test that succeeds through it
/// proves that no value/use pair was ever handed to the lattice.
#[derive(Debug)]
pub struct RejectingTypeSystem;

impl AbstractTypes<AbstractTypeValue, AbstractTypeUse> for RejectingTypeSystem {
    type Error = TypeError;

    fn meet(
        _lhs: &AbstractTypeValue,
        _rhs: &AbstractTypeUse,
    ) -> Result<Vec<(Value, Use)>, Self::Error> {
        Err(TypeError::Converge)
    }
}

#[test]
fn pairs_with_placeholders_never_reach_the_lattice() {
    let mut t = TypeChecker::new(RejectingTypeSystem);
    let vid = t.new_val(AbstractTypeValue::VBool);
    let (pv, pu) = t.var();
    let (_, qu) = t.var();
    // value -> placeholder and placeholder -> placeholder imply new graph
    // edges, but none of the implied pairs is value/use, so the
    // always-failing lattice is never consulted.
    assert!(t.flow(vid, pu).is_ok());
    assert!(t.flow(pv, qu).is_ok());
}

/// A lattice over containers: merging a box value into a box use succeeds
/// and demands that the element types flow into each other in turn.
#[derive(Debug, Clone)]
pub enum BoxedValue {
    VBool,
    VBox(Value),
}

#[derive(Debug, Clone)]
pub enum BoxedUse {
    UBool,
    UFloat,
    UBox(Use),
}

#[derive(Debug)]
pub struct BoxedTypeSystem;

impl AbstractTypes<BoxedValue, BoxedUse> for BoxedTypeSystem {
    type Error = TypeError;

    fn meet(lhs: &BoxedValue, rhs: &BoxedUse) -> Result<Vec<(Value, Use)>, Self::Error> {
        match (lhs, rhs) {
            (&BoxedValue::VBool, &BoxedUse::UBool) => Ok(vec![]),
            (&BoxedValue::VBox(v), &BoxedUse::UBox(u)) => Ok(vec![(v, u)]),
            _ => Err(TypeError::Converge),
        }
    }
}

#[test]
fn cascading_assertions_converge() {
    let mut t = TypeChecker::new(BoxedTypeSystem);
    let inner_v = t.new_val(BoxedValue::VBool);
    let inner_u = t.new_use(BoxedUse::UBool);
    let outer_v = t.new_val(BoxedValue::VBox(inner_v));
    let outer_u = t.new_use(BoxedUse::UBox(inner_u));
    assert!(t.flow(outer_v, outer_u).is_ok());
}

#[test]
fn cascading_assertions_surface_inner_mismatch() {
    let mut t = TypeChecker::new(BoxedTypeSystem);
    let inner_v = t.new_val(BoxedValue::VBool);
    let inner_u = t.new_use(BoxedUse::UFloat);
    let outer_v = t.new_val(BoxedValue::VBox(inner_v));
    let outer_u = t.new_use(BoxedUse::UBox(inner_u));
    assert_eq!(t.flow(outer_v, outer_u), Err(TypeError::Converge));
}
