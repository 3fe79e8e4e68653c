use bitcoin::Network;
use sapio::actions::{
    action_inclusion, check_templates_produced, required_input, ActionInclusion, CCILWrapper,
    CompileCondition, ConditionalCompileType, ThenFuncTypeTag,
};
use sapio::context::{Context, PathFragment};
use sapio::error::CompilationError;
use std::cell::Cell;
use ConditionalCompileType::{Fail, Never, NoConstraint, Nullable, Required, Skippable};

fn context() -> Context {
    Context::new(
        Network::Regtest,
        0,
        vec![PathFragment::Named("conditions".to_string())],
        None,
    )
}

enum Factory {
    Counted,
    Failing,
    Fixed(fn() -> ConditionalCompileType),
}

impl CompileCondition<Cell<usize>> for Factory {
    fn evaluate(&self, calls: &Cell<usize>, _ctx: Context) -> ConditionalCompileType {
        calls.set(calls.get() + 1);
        match self {
            Factory::Counted => ConditionalCompileType::NoConstraint,
            Factory::Failing => ConditionalCompileType::Fail(Vec::new()),
            Factory::Fixed(f) => f(),
        }
    }
}

#[test]
fn occupied_condition_slot_returns_its_derivation_error_without_skipping() {
    let mut context = context();
    context.derive_num(1u64).unwrap();
    let calls = Cell::new(0);
    let result =
        CCILWrapper(&[None, Some(Factory::Counted), Some(Factory::Counted)]).assemble(&calls, &mut context);
    assert!(matches!(result, Err(CompilationError::ContexPathAlreadyDerived)));
    assert_eq!(calls.get(), 0);
    assert!(context.derive_num(0u64).is_ok());
    assert!(context.derive_num(2u64).is_ok());
}

#[test]
fn explicit_failure_does_not_hide_a_later_derivation_error() {
    let mut context = context();
    context.derive_num(1u64).unwrap();
    let calls = Cell::new(0);
    let result =
        CCILWrapper(&[Some(Factory::Failing), Some(Factory::Counted)]).assemble(&calls, &mut context);
    assert!(matches!(result, Err(CompilationError::ContexPathAlreadyDerived)));
    assert_eq!(calls.get(), 1);
}

#[test]
fn absent_factories_do_not_reserve_contexts() {
    let mut context = context();
    let calls = Cell::new(0);
    let none: [Option<Factory>; 2] = [None, None];
    assert_eq!(
        CCILWrapper(&none).assemble(&calls, &mut context).unwrap(),
        ConditionalCompileType::NoConstraint
    );
    assert_eq!(calls.get(), 0);
    assert!(context.derive_num(0u64).is_ok());
    assert!(context.derive_num(1u64).is_ok());
}

fn required() -> ConditionalCompileType {
    ConditionalCompileType::Required
}

fn never() -> ConditionalCompileType {
    ConditionalCompileType::Never
}

fn skippable() -> ConditionalCompileType {
    ConditionalCompileType::Skippable
}

fn nullable() -> ConditionalCompileType {
    ConditionalCompileType::Nullable
}

fn failing_with_reason() -> ConditionalCompileType {
    ConditionalCompileType::Fail(vec!["first".to_string()])
}

#[test]
fn a_requirement_meeting_a_prohibition_is_reported_after_explicit_failures() {
    let mut context = context();
    let calls = Cell::new(0);
    let result = CCILWrapper(&[
        Some(Factory::Fixed(never)),
        Some(Factory::Fixed(failing_with_reason)),
        Some(Factory::Fixed(required)),
    ])
    .assemble(&calls, &mut context)
    .unwrap();
    assert_eq!(
        result,
        ConditionalCompileType::Fail(vec![
            "first".to_string(),
            "Never and Required incompatible".to_string()
        ])
    );
    assert_eq!(calls.get(), 3);
}

#[test]
fn soft_conditions_merge_and_requirements_win() {
    let mut context = context();
    let calls = Cell::new(0);
    let soft = CCILWrapper(&[Some(Factory::Fixed(nullable)), Some(Factory::Fixed(skippable))])
        .assemble(&calls, &mut context)
        .unwrap();
    assert_eq!(soft, ConditionalCompileType::Skippable);
    let mut context = self::context();
    let hard = CCILWrapper(&[Some(Factory::Fixed(skippable)), Some(Factory::Fixed(required))])
        .assemble(&calls, &mut context)
        .unwrap();
    assert_eq!(hard, ConditionalCompileType::Required);
}

#[test]
fn merge_follows_the_documented_precedence() {
    assert_eq!(NoConstraint.merge(Never), Never);
    assert_eq!(Skippable.merge(NoConstraint), Skippable);
    assert_eq!(Required.merge(Skippable), Required);
    assert_eq!(Nullable.merge(Skippable), Skippable);
    assert_eq!(Nullable.merge(Nullable), Nullable);
    assert_eq!(Never.merge(Nullable), Never);
    assert_eq!(
        Required.merge(Never),
        Fail(vec!["Never and Required incompatible".to_string()])
    );
    assert_eq!(Fail(vec!["a".to_string()]).merge(Required), Fail(vec!["a".to_string()]));
    assert_eq!(
        Fail(vec!["a".to_string()]).merge(Fail(vec!["b".to_string()])),
        Fail(vec!["a".to_string(), "b".to_string()])
    );
}

#[test]
fn merging_decisions_is_commutative_and_associative_on_kinds() {
    let all = || vec![Skippable, Nullable, Required, Never, NoConstraint, Fail(vec![])];
    for (i, a) in all().into_iter().enumerate() {
        for (j, b) in all().into_iter().enumerate() {
            let ab = all()[i].clone().merge(all()[j].clone());
            let ba = b.merge(a.clone());
            assert_eq!(
                std::mem::discriminant(&ab),
                std::mem::discriminant(&ba),
                "{i} {j}"
            );
        }
    }
}

#[test]
fn then_tags_coerce_to_themselves() {
    assert!(ThenFuncTypeTag::coerce_args(ThenFuncTypeTag::new()).is_ok());
}

#[test]
fn a_decision_includes_or_skips_its_action() {
    assert_eq!(action_inclusion(Required).unwrap(), ActionInclusion::Required);
    assert_eq!(action_inclusion(NoConstraint).unwrap(), ActionInclusion::Required);
    assert_eq!(action_inclusion(Nullable).unwrap(), ActionInclusion::Nullable);
    assert_eq!(action_inclusion(Skippable).unwrap(), ActionInclusion::Skip);
    assert_eq!(action_inclusion(Never).unwrap(), ActionInclusion::Skip);
    assert_eq!(
        action_inclusion(Fail(vec!["no".to_string()])).unwrap_err(),
        CompilationError::ConditionalCompilationFailed(vec!["no".to_string()])
    );
    assert_eq!(
        check_templates_produced(true, false, ActionInclusion::Required),
        Err(CompilationError::MissingTemplates)
    );
    assert!(check_templates_produced(true, false, ActionInclusion::Nullable).is_ok());
    assert!(check_templates_produced(false, false, ActionInclusion::Required).is_ok());
    assert!(check_templates_produced(true, true, ActionInclusion::Required).is_ok());
    assert_eq!(required_input(100, &[50, 300, 200]), 300);
    assert_eq!(required_input(100, &[50]), 100);
}
