use sapio::actions::TemplateKind;
use sapio::artifact::{
    assign_inputs, check_funding, check_input_map, contains_native_ctv, explain_artifact,
    requires_native_ctv, validate_artifact, ArtifactErrorKind, ArtifactModel, ArtifactNode,
    ArtifactTemplate, AssignFault, FundingFault, InputMapping, MappingFault, Outpoint,
};
use sapio::context::PathFragment;
use sapio::builder::{Compiled, Output};
use sapio::template::{Template, TemplateMetadata};

fn template(sequences: Vec<u32>, amount: u64, max: u64) -> Template {
    let mut t = Template {
        max,
        required_input_amount: max,
        min_feerate_sats_vbyte: None,
        metadata: TemplateMetadata::new(),
        version: 2,
        lock_time: 0,
        sequences,
        outputs: vec![Output {
            amount,
            contract: Compiled { required_input_amount: 0, script_pubkey: vec![0x51] },
        }],
        funding_constraints: None,
        ctv: vec![],
        ctv_index: 0,
    };
    t.ctv = t.hash();
    t
}

fn entry(tpl: Template, committed: bool, children: Vec<usize>) -> ArtifactTemplate {
    let key = tpl.hash();
    ArtifactTemplate {
        key,
        committed,
        input_metadata: tpl.sequences.len(),
        template: tpl,
        children,
    }
}

fn leaf(script: Vec<u8>, required: u64, parent: (usize, usize, usize)) -> ArtifactNode {
    ArtifactNode {
        parent: Some(parent),
        source_path: vec![PathFragment::Named("child".to_string())],
        address_script: script,
        descriptor_script: None,
        spending_scripts: Vec::new(),
        required_input_amount: required,
        predicates: Vec::new(),
        templates: Vec::new(),
    }
}

/// A root contract with one committed template paying 1000 sats to a leaf.
fn artifact(amount: u64, max: u64) -> ArtifactModel {
    let tpl = entry(template(vec![0xffff_ffff], amount, max), true, vec![1]);
    ArtifactModel {
        nodes: vec![
            ArtifactNode {
                parent: None,
                source_path: vec![PathFragment::Named("root".to_string())],
                address_script: vec![0x00, 0x20],
                descriptor_script: Some(vec![0x00, 0x20]),
                spending_scripts: vec![vec![0x51, 0xb3]],
                required_input_amount: max,
                predicates: vec![tpl.key.clone()],
                templates: vec![tpl],
            },
            leaf(vec![0x51], 0, (0, 0, 0)),
        ],
    }
}

fn fault(a: &ArtifactModel) -> ArtifactErrorKind {
    validate_artifact(a).unwrap_err().kind
}

#[test]
fn a_consistent_artifact_validates() {
    let a = artifact(1000, 1100);
    assert!(validate_artifact(&a).is_ok());
}

#[test]
fn an_artifact_explains_every_template() {
    let a = artifact(1000, 1100);
    let x = explain_artifact(&a).unwrap();
    assert!(x.native_ctv_in_graph);
    let nodes = x.nodes;
    assert_eq!(nodes.len(), 2);
    assert_eq!(nodes[0].location, "");
    let hex: String = a.nodes[0].templates[0].key.iter().map(|b| format!("{:02x}", b)).collect();
    let child = format!("/template_hash_to_template_map/{}/outputs_info/0/receiving_contract", hex);
    assert_eq!(nodes[1].location, child);
    assert_eq!(nodes[0].templates[0].outputs[0].contract_location, child);
    assert_eq!(nodes[1].source_path.len(), 1);
    assert_eq!(nodes[0].required_input_sats, 1100);
    let t = &nodes[0].templates[0];
    assert_eq!(t.kind, TemplateKind::Committed);
    assert_eq!(t.minimum_funding_sats, 1100);
    assert_eq!(t.contract_input_sats, 1100);
    assert_eq!(t.reserved_fee_sats, 100);
    assert_eq!(t.inputs.len(), 1);
    assert_eq!(t.inputs[0].minimum_sats, Some(1100));
    assert_eq!(t.inputs[0].sequence, 0xffff_ffff);
    assert_eq!(t.outputs[0].amount_sats, 1000);
    assert_eq!(t.outputs[0].script_pubkey, vec![0x51]);
    assert_eq!(t.outputs[0].child, 1);
    assert!(nodes[1].templates.is_empty());
}

#[test]
fn an_inconsistent_artifact_is_not_explained() {
    let mut a = artifact(1000, 1100);
    a.nodes[0].predicates.clear();
    assert_eq!(explain_artifact(&a).unwrap_err().kind, ArtifactErrorKind::MissingCovenant);
}

#[test]
fn a_template_must_be_stored_under_its_hash() {
    let mut a = artifact(1000, 1100);
    a.nodes[0].templates[0].key[0] ^= 1;
    let e = validate_artifact(&a).unwrap_err();
    assert_eq!(e.node, 0);
    assert_eq!(e.template, Some(a.nodes[0].templates[0].key.clone()));
    assert_eq!(e.kind, ArtifactErrorKind::TemplateHashMismatch);
}

#[test]
fn a_committed_template_needs_its_covenant() {
    let mut a = artifact(1000, 1100);
    a.nodes[0].predicates.clear();
    assert_eq!(fault(&a), ArtifactErrorKind::MissingCovenant);
    a.nodes[0].templates[0].committed = false;
    assert!(validate_artifact(&a).is_ok());
}

#[test]
fn an_output_must_pay_its_child() {
    let mut a = artifact(1000, 1100);
    a.nodes[1].address_script = vec![0x52];
    assert_eq!(fault(&a), ArtifactErrorKind::OutputMismatch(0));
}

#[test]
fn an_output_must_fund_its_child() {
    let mut a = artifact(1000, 1100);
    a.nodes[1].required_input_amount = 2000;
    assert_eq!(
        fault(&a),
        ArtifactErrorKind::UnderfundedChild { index: 0, available: 1000, required: 2000 }
    );
}

#[test]
fn outputs_must_fit_the_funding() {
    let mut a = artifact(1000, 1100);
    a.nodes[0].templates[0].template.max = 900;
    assert_eq!(fault(&a), ArtifactErrorKind::InsufficientAmount);
}

#[test]
fn a_single_input_supplies_the_whole_funding() {
    let mut a = artifact(1000, 1100);
    a.nodes[0].templates[0].template.required_input_amount = 1000;
    assert_eq!(fault(&a), ArtifactErrorKind::InvalidInputAmount);
}

#[test]
fn a_contract_requires_what_its_templates_require() {
    let mut a = artifact(1000, 1100);
    a.nodes[0].required_input_amount = 500;
    assert_eq!(fault(&a), ArtifactErrorKind::InvalidInputRequirement);
}

#[test]
fn a_template_needs_an_input_and_one_child_per_output() {
    let mut a = artifact(1000, 1100);
    a.nodes[0].templates[0].children.push(2);
    a.nodes.push(leaf(vec![0x51], 0, (0, 0, 1)));
    assert_eq!(fault(&a), ArtifactErrorKind::OutputMetadataCount);
    let mut b = artifact(1000, 1100);
    b.nodes[0].templates[0].template.sequences.clear();
    assert_eq!(fault(&b), ArtifactErrorKind::MissingInput);
}

#[test]
fn a_later_contract_is_checked_too() {
    let mut a = artifact(1000, 1100);
    a.nodes[1].templates.push(entry(template(vec![0xffff_ffff], 10, 10), false, vec![2]));
    a.nodes.push(leaf(vec![0x51], 0, (1, 0, 0)));
    let e = validate_artifact(&a).unwrap_err();
    assert_eq!(e.node, 1);
    assert_eq!(e.kind, ArtifactErrorKind::InvalidInputRequirement);
}

#[test]
fn a_funding_output_must_match_the_contract() {
    assert_eq!(check_funding(&vec![0x51], 1000, &vec![0x52], 10), Err(FundingFault::ScriptMismatch));
    assert_eq!(
        check_funding(&vec![0x51], 5, &vec![0x51], 10),
        Err(FundingFault::Underfunded { available: 5, required: 10 })
    );
    assert_eq!(check_funding(&vec![0x51], 10, &vec![0x51], 10), Ok(()));
}

fn outpoint(vout: u32) -> Option<Outpoint> {
    Some(Outpoint { txid: vec![7; 32], vout })
}

#[test]
fn input_mappings_follow_the_templates() {
    let a = artifact(1000, 1100);
    let key = a.nodes[0].templates[0].key.clone();
    assert!(check_input_map(&a, &Vec::new()).is_ok());
    let ok = vec![InputMapping { key: key.clone(), inputs: vec![None] }];
    assert!(check_input_map(&a, &ok).is_ok());
    let long = vec![InputMapping { key: key.clone(), inputs: vec![None, outpoint(1)] }];
    let e = check_input_map(&a, &long).unwrap_err();
    assert_eq!(e.template, key);
    assert_eq!(e.fault, MappingFault::EntryCount);
    let bound = vec![InputMapping { key: key.clone(), inputs: vec![outpoint(0)] }];
    assert_eq!(check_input_map(&a, &bound).unwrap_err().fault, MappingFault::ContractInputMapped);
    let unknown = vec![
        InputMapping { key: key.clone(), inputs: vec![None] },
        InputMapping { key: vec![9; 32], inputs: vec![None] },
    ];
    let e = check_input_map(&a, &unknown).unwrap_err();
    assert_eq!(e.template, vec![9; 32]);
    assert_eq!(e.fault, MappingFault::UnknownTemplate);
}

fn op(byte: u8, vout: u32) -> Outpoint {
    Outpoint { txid: vec![byte; 32], vout }
}

fn views(v: &[Outpoint]) -> Vec<(Vec<u8>, u32)> {
    v.iter().map(|o| (o.txid.clone(), o.vout)).collect()
}

#[test]
fn unresolved_inputs_get_fresh_placeholders() {
    let mut reserved = vec![op(2, 5), op(1, 0)];
    let mut mock = 0u32;
    let bound = assign_inputs(&op(1, 0), &vec![None, Some(op(2, 5))], 3, &mut reserved, &mut mock).unwrap();
    assert_eq!(views(&bound), vec![(vec![1; 32], 0), (vec![2; 32], 5), (vec![0; 32], 0)]);
    assert_eq!(mock, 0);
    assert_eq!(reserved.len(), 3);
    let next = assign_inputs(&op(3, 1), &Vec::new(), 2, &mut reserved, &mut mock).unwrap();
    assert_eq!(views(&next), vec![(vec![3; 32], 1), (vec![0; 32], 1)]);
    assert_eq!(mock, 1);
}

#[test]
fn a_placeholder_never_reuses_the_contract_input() {
    let mut reserved = Vec::new();
    let mut mock = 0u32;
    let bound = assign_inputs(&op(0, 0), &Vec::new(), 2, &mut reserved, &mut mock).unwrap();
    assert_eq!(views(&bound), vec![(vec![0; 32], 0), (vec![0; 32], 1)]);
}

#[test]
fn an_outpoint_is_spent_once() {
    let mut reserved = Vec::new();
    let mut mock = 0u32;
    let r = assign_inputs(&op(1, 0), &vec![None, Some(op(1, 0))], 2, &mut reserved, &mut mock);
    assert_eq!(r.unwrap_err(), AssignFault::DuplicateInput);
}

#[test]
fn the_recorded_hash_index_and_input_metadata_must_agree() {
    let mut a = artifact(1000, 1100);
    a.nodes[0].templates[0].template.ctv[0] ^= 1;
    assert_eq!(fault(&a), ArtifactErrorKind::TemplateHashMismatch);
    let mut b = artifact(1000, 1100);
    b.nodes[0].templates[0].template.ctv_index = 1;
    assert_eq!(fault(&b), ArtifactErrorKind::UnsupportedInputIndex(1));
    let mut c = artifact(1000, 1100);
    c.nodes[0].templates[0].input_metadata = 2;
    assert_eq!(fault(&c), ArtifactErrorKind::InputMetadataCount);
}

#[test]
fn a_descriptor_must_describe_the_address() {
    let mut a = artifact(1000, 1100);
    a.nodes[0].descriptor_script = Some(vec![0x51]);
    let e = validate_artifact(&a).unwrap_err();
    assert_eq!(e.node, 0);
    assert_eq!(e.template, None);
    assert_eq!(e.kind, ArtifactErrorKind::DescriptorMismatch);
}

#[test]
fn native_ctv_is_an_instruction_not_pushed_data() {
    assert!(!contains_native_ctv(&vec![0x20, 0xb3]));
    assert!(contains_native_ctv(&vec![0xb3]));
    assert!(contains_native_ctv(&vec![0x51, 0xb3]));
    assert!(!contains_native_ctv(&vec![0x01, 0xb3]));
    assert!(!contains_native_ctv(&vec![0x51, 0x52]));
    assert!(!contains_native_ctv(&Vec::new()));
    let mut a = artifact(1000, 1100);
    a.nodes[0].spending_scripts = vec![vec![0x01, 0xb3]];
    assert!(!requires_native_ctv(&a));
    a.nodes[1].spending_scripts = vec![vec![0x51, 0xb3]];
    assert!(requires_native_ctv(&a));
}
