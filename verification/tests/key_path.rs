use sapio::actions::{key_path_branches, template_clause};
use sapio::error::CompilationError;

fn key(b: u8) -> Vec<u8> {
    vec![b; 32]
}

#[test]
fn committed_templates_always_add_a_clause() {
    assert_eq!(template_clause(true, false), Ok(true));
    assert_eq!(template_clause(true, true), Ok(true));
}

#[test]
fn suggested_templates_add_no_clause_without_guards() {
    assert_eq!(template_clause(false, false), Ok(false));
}

#[test]
fn suggested_templates_reject_their_own_guards() {
    assert_eq!(
        template_clause(false, true),
        Err(CompilationError::AdditionalGuardsNotAllowedHere)
    );
}

#[test]
fn a_contract_without_branches_has_an_empty_policy() {
    assert_eq!(
        key_path_branches(&None, &vec![]),
        Err(CompilationError::EmptyPolicy)
    );
}

#[test]
fn without_a_pinned_key_every_branch_stays() {
    let branches = vec![Some(key(1)), None, Some(key(2))];
    assert_eq!(key_path_branches(&None, &branches), Ok(vec![true, true, true]));
}

#[test]
fn a_pinned_key_removes_exactly_its_bare_branches() {
    let branches = vec![Some(key(1)), None, Some(key(2)), Some(key(1))];
    assert_eq!(
        key_path_branches(&Some(key(1)), &branches),
        Ok(vec![false, true, true, false])
    );
}

#[test]
fn a_pinned_key_outside_the_branches_is_unauthorized() {
    let branches = vec![Some(key(2)), None];
    assert_eq!(
        key_path_branches(&Some(key(1)), &branches),
        Err(CompilationError::UnauthorizedInternalKey { key: key(1) })
    );
}

#[test]
fn a_pinned_key_needs_at_least_one_branch() {
    assert_eq!(
        key_path_branches(&Some(key(3)), &vec![]),
        Err(CompilationError::UnauthorizedInternalKey { key: key(3) })
    );
}
