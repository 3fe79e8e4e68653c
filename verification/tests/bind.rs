use sapio::artifact::{
    ArtifactModel, ArtifactNode, ArtifactTemplate, AssignFault, FundingFault, Outpoint,
};
use sapio::bind::{
    bind_template, check_visit, child_visits, reserved_outpoints, BindFault, BindVisit, BindWalk,
};
use sapio::builder::{Compiled, Output};
use sapio::context::PathFragment;
use sapio::template::{FundingError, Template, TemplateMetadata};

fn op(byte: u8, vout: u32) -> Outpoint {
    Outpoint { txid: vec![byte; 32], vout }
}

fn view(o: &Outpoint) -> (Vec<u8>, u32) {
    (o.txid.clone(), o.vout)
}

/// A template with `inputs` inputs paying 600 and 300 to two leaves,
/// needing 1000 sats.
fn template(inputs: usize) -> Template {
    let out = |amount, script: Vec<u8>| Output {
        amount,
        contract: Compiled { required_input_amount: 0, script_pubkey: script },
    };
    let mut t = Template {
        max: 1000,
        required_input_amount: 1000,
        min_feerate_sats_vbyte: None,
        metadata: TemplateMetadata::new(),
        version: 2,
        lock_time: 0,
        sequences: vec![0xffff_ffff; inputs],
        outputs: vec![out(600, vec![0x51]), out(300, vec![0x52])],
        funding_constraints: None,
        ctv: vec![],
        ctv_index: 0,
    };
    t.ctv = t.hash();
    t
}

fn leaf(script: Vec<u8>, required: u64, vout: usize) -> ArtifactNode {
    ArtifactNode {
        parent: Some((0, 0, vout)),
        source_path: vec![PathFragment::Named("leaf".to_string())],
        address_script: script,
        descriptor_script: None,
        spending_scripts: Vec::new(),
        required_input_amount: required,
        predicates: Vec::new(),
        templates: Vec::new(),
    }
}

fn artifact(inputs: usize, committed: bool) -> ArtifactModel {
    let t = template(inputs);
    let key = t.hash();
    ArtifactModel {
        nodes: vec![
            ArtifactNode {
                parent: None,
                source_path: vec![PathFragment::Named("root".to_string())],
                address_script: vec![0x00, 0x20],
                descriptor_script: None,
                spending_scripts: Vec::new(),
                required_input_amount: 1000,
                predicates: vec![key.clone()],
                templates: vec![ArtifactTemplate {
                    key,
                    committed,
                    template: t,
                    input_metadata: inputs,
                    children: vec![1, 2],
                }],
            },
            leaf(vec![0x51], 500, 0),
            leaf(vec![0x52], 300, 1),
        ],
    }
}

fn root(funding: Option<Vec<(u64, Vec<u8>)>>) -> BindVisit {
    BindVisit {
        node: 0,
        out: op(7, 1),
        bound_path: vec![PathFragment::Named("root".to_string())],
        funding,
    }
}

#[test]
fn a_known_funding_output_must_pay_the_contract_enough() {
    let a = artifact(1, true);
    let good = vec![(5, vec![0x51]), (1000, vec![0x00, 0x20])];
    assert_eq!(check_visit(&a, &root(Some(good))), Ok(()));
    let wrong_script = vec![(5, vec![0x51]), (1000, vec![0x51])];
    assert_eq!(check_visit(&a, &root(Some(wrong_script))), Err(FundingFault::ScriptMismatch));
    let short = vec![(5, vec![0x51]), (999, vec![0x00, 0x20])];
    assert_eq!(
        check_visit(&a, &root(Some(short))),
        Err(FundingFault::Underfunded { available: 999, required: 1000 })
    );
    assert_eq!(check_visit(&a, &root(None)), Ok(()));
}

#[test]
fn a_template_binds_its_inputs_and_checks_the_known_amounts() {
    let a = artifact(3, true);
    let v = root(Some(vec![(5, vec![0x51]), (1000, vec![0x00, 0x20])]));
    let mapping = vec![None, Some(op(9, 4)), None];
    let mut reserved = vec![op(9, 4), op(7, 1)];
    let mut mock = 0u32;
    let (bound, report) =
        bind_template(&a, &v, 0, &mapping, &vec![None, Some(200), None], &mut reserved, &mut mock)
            .unwrap();
    assert_eq!(
        bound.iter().map(view).collect::<Vec<_>>(),
        vec![(vec![7; 32], 1), (vec![9; 32], 4), (vec![0; 32], 0)]
    );
    assert_eq!(report.known_input_sats, 1200);
    assert_eq!(report.missing_inputs, vec![2]);
    assert_eq!(report.actual_fee_sats, None);
    assert_eq!(reserved.len(), 3);
    assert_eq!(mock, 0);
}

#[test]
fn a_fully_known_template_must_be_funded() {
    let a = artifact(2, true);
    let v = root(Some(vec![(900, vec![0x00, 0x20])]));
    let v = BindVisit { out: op(7, 0), ..v };
    let mut reserved = vec![op(9, 4), op(7, 0)];
    let mut mock = 0u32;
    let r = bind_template(
        &a,
        &v,
        0,
        &vec![None, Some(op(9, 4))],
        &vec![None, Some(50)],
        &mut reserved,
        &mut mock,
    );
    assert!(matches!(
        r,
        Err(BindFault::Amounts(FundingError::InsufficientFunding { available: 950, required: 1000 }))
    ));
}

#[test]
fn a_template_may_not_spend_its_contract_input_twice() {
    let a = artifact(2, true);
    let v = root(None);
    let mut reserved = vec![op(7, 1)];
    let mut mock = 0u32;
    let r = bind_template(&a, &v, 0, &vec![None, Some(op(7, 1))], &vec![], &mut reserved, &mut mock);
    assert!(matches!(r, Err(BindFault::Inputs(AssignFault::DuplicateInput))));
}

#[test]
fn children_are_bound_to_the_template_outputs_under_its_hash() {
    let a = artifact(1, true);
    let v = root(None);
    let key = a.nodes[0].templates[0].key.clone();
    let hex: String = key.iter().map(|b| format!("{:02x}", b)).collect();
    let kids = child_visits(&a, &v, 0, &vec![3; 32]);
    assert_eq!(kids.len(), 2);
    assert_eq!(kids[1].node, 2);
    assert_eq!(view(&kids[1].out), (vec![3; 32], 1));
    assert_eq!(
        format!("{:?}", kids[1].bound_path),
        format!(
            "{:?}",
            vec![
                PathFragment::Named("root".to_string()),
                PathFragment::Next,
                PathFragment::Named(hex),
                PathFragment::Branch(1),
            ]
        )
    );
    assert_eq!(kids[0].funding, Some(vec![(600, vec![0x51]), (300, vec![0x52])]));
    assert_eq!(check_visit(&a, &kids[0]), Ok(()));
    let suggested = artifact(1, false);
    let kids = child_visits(&suggested, &v, 0, &vec![3; 32]);
    assert!(matches!(kids[0].bound_path[1], PathFragment::Suggested));
}

#[test]
fn an_underfunded_child_is_found_at_its_output() {
    let mut a = artifact(1, true);
    a.nodes[1].required_input_amount = 601;
    let kids = child_visits(&a, &root(None), 0, &vec![3; 32]);
    assert_eq!(
        check_visit(&a, &kids[0]),
        Err(FundingFault::Underfunded { available: 600, required: 601 })
    );
}

#[test]
fn the_walk_binds_the_last_reached_contract_first() {
    let a = artifact(1, true);
    let mappings = vec![vec![None, Some(op(9, 4))]];
    let mut walk = BindWalk::start(&a, &op(7, 1), None, &mappings);
    assert_eq!(walk.reserved.iter().map(view).collect::<Vec<_>>(), vec![(vec![9; 32], 4), (vec![7; 32], 1)]);
    let first = walk.next().unwrap();
    assert_eq!(first.node, 0);
    assert!(matches!(&first.bound_path[..], [PathFragment::Named(n)] if n == "root"));
    walk.reach(child_visits(&a, &first, 0, &vec![3; 32]));
    assert_eq!(walk.next().unwrap().node, 2);
    assert_eq!(walk.next().unwrap().node, 1);
    assert!(walk.next().is_none());
}

#[test]
fn reserved_outpoints_hold_every_mapped_output_and_the_root_input() {
    let r = reserved_outpoints(&vec![vec![None, Some(op(1, 0))], vec![], vec![Some(op(2, 3))]], &op(7, 1));
    assert_eq!(
        r.iter().map(view).collect::<Vec<_>>(),
        vec![(vec![1; 32], 0), (vec![2; 32], 3), (vec![7; 32], 1)]
    );
}
