//! The decisions of binding an artifact graph to funding outputs: what each
//! contract reached by the walk must find at the output bound to it, how a
//! template's inputs are assigned and its known amounts checked, and which
//! contracts the template's outputs bind next.
use vstd::prelude::*;
use crate::artifact::{
    ArtifactModel, AssignFault, FundingFault, Outpoint, assign_inputs, assign_spec, check_funding,
    copy_outpoint, hex, mapping_view, op_view, push_hex,
};
use crate::context::{FragmentView, PathFragment, duplicate_fragments, fragment_views};
use crate::template::{FundingError, FundingReport, funding_check, report_matches};
use crate::builder::Output;
use crate::template::copy_bytes;

verus! {

/// A contract reached by the binding walk.
pub struct BindVisit {
    /// The contract's index in the artifact.
    pub node: usize,
    /// The output bound to the contract's input.
    pub out: Outpoint,
    /// Where the contract sits in the bound graph.
    pub bound_path: Vec<PathFragment>,
    /// The outputs (amount and script) of the transaction that creates
    /// `out`, when it is known.
    pub funding: Option<Vec<(u64, Vec<u8>)>>,
}

/// Why a contract or one of its templates cannot be bound.
#[derive(Debug)]
pub enum BindFault {
    /// The output bound to the contract does not fund it.
    Funding(FundingFault),
    /// The template's inputs cannot be assigned outpoints.
    Inputs(AssignFault),
    /// The template's known input amounts break its funding rules.
    Amounts(FundingError),
}

/// The known outputs of a funding transaction as values.
pub open spec fn funding_view(f: Option<Vec<(u64, Vec<u8>)>>) -> Option<Seq<(u64, Seq<u8>)>> {
    match f {
        Some(v) => Some(v@.map_values(|o: (u64, Vec<u8>)| (o.0, o.1@))),
        None => None,
    }
}

/// What the output bound to a visited contract shows: with its funding
/// transaction known, the output must pay to the contract's script and hold
/// the contract's required amount.
pub open spec fn visit_fault(a: &ArtifactModel, v: &BindVisit) -> Option<FundingFault> {
    match funding_view(v.funding) {
        None => None,
        Some(outs) => {
            let o = outs[v.out.vout as int];
            let node = a.nodes@[v.node as int];
            if o.1 != node.address_script@ {
                Some(FundingFault::ScriptMismatch)
            } else if o.0 < node.required_input_amount {
                Some(
                    FundingFault::Underfunded {
                        available: o.0,
                        required: node.required_input_amount,
                    },
                )
            } else {
                None
            }
        },
    }
}

/// Check the output bound to a visited contract.
pub fn check_visit(a: &ArtifactModel, v: &BindVisit) -> (r: Result<(), FundingFault>)
    requires
        v.node < a.nodes@.len(),
        v.funding matches Some(f) ==> v.out.vout < f@.len(),
    ensures
        match visit_fault(a, v) {
            None => r is Ok,
            Some(f) => r == Err::<(), FundingFault>(f),
        },
{
    match &v.funding {
        None => Ok(()),
        Some(outs) => {
            let o = &outs[v.out.vout as usize];
            let node = &a.nodes[v.node];
            check_funding(&o.1, o.0, &node.address_script, node.required_input_amount)
        },
    }
}

/// The amount each input of a template spends, as far as it is known: input
/// zero spends the visited output, a mapped input the value the index holds
/// for it, and an unmapped input is unknown.
pub open spec fn input_amounts(
    v: &BindVisit,
    mapping: Seq<Option<Outpoint>>,
    looked_up: Seq<Option<u64>>,
    n: int,
) -> Seq<Option<u64>> {
    Seq::new(
        n as nat,
        |i: int|
            if i == 0 {
                match funding_view(v.funding) {
                    Some(outs) => Some(outs[v.out.vout as int].0),
                    None => None,
                }
            } else if i < mapping.len() && mapping[i] is Some && i < looked_up.len() {
                looked_up[i]
            } else {
                None
            },
    )
}

/// Bind template `k` of a visited contract: assign its inputs their
/// outpoints (input zero the visited output; a mapped input its outpoint;
/// any other a fresh placeholder), then check its funding rules against the
/// amounts that are known. `looked_up` holds, for each mapped input, the
/// value the transaction index knows for its outpoint.
pub fn bind_template(
    a: &ArtifactModel,
    v: &BindVisit,
    k: usize,
    mapping: &Vec<Option<Outpoint>>,
    looked_up: &Vec<Option<u64>>,
    reserved: &mut Vec<Outpoint>,
    next_mock: &mut u32,
) -> (r: Result<(Vec<Outpoint>, FundingReport), BindFault>)
    requires
        v.node < a.nodes@.len(),
        k < a.nodes@[v.node as int].templates@.len(),
        v.funding matches Some(f) ==> v.out.vout < f@.len(),
    ensures
        ({
            let t = &a.nodes@[v.node as int].templates@[k as int].template;
            let n = t.sequences@.len() as int;
            match assign_spec(
                op_view(&v.out),
                mapping_view(mapping@),
                n,
                old(reserved)@.map_values(|p: Outpoint| op_view(&p)),
                *old(next_mock),
            ) {
                Err(e) => r matches Err(BindFault::Inputs(f)) && f == e,
                Ok((ins, res, m)) => final(reserved)@.map_values(|p: Outpoint| op_view(&p)) == res
                    && *final(next_mock) == m && match funding_check(
                    t,
                    input_amounts(v, mapping@, looked_up@, n),
                ) {
                    Err(e) => r matches Err(BindFault::Amounts(f)) && f == e,
                    Ok((known, missing, actual)) => r matches Ok((bound, rep))
                        && bound@.map_values(|p: Outpoint| op_view(&p)) == ins && report_matches(
                        t,
                        &rep,
                        known,
                        missing,
                        actual,
                    ),
                },
            }
        }),
{
    let t = &a.nodes[v.node].templates[k].template;
    let n = t.sequences.len();
    let bound = match assign_inputs(&v.out, mapping, n, reserved, next_mock) {
        Ok(b) => b,
        Err(e) => return Err(BindFault::Inputs(e)),
    };
    let mut amounts: Vec<Option<u64>> = Vec::new();
    let mut i: usize = 0;
    while i < n
        invariant
            i <= n,
            n == t.sequences@.len(),
            v.funding matches Some(f) ==> v.out.vout < f@.len(),
            amounts@ =~= input_amounts(v, mapping@, looked_up@, n as int).take(i as int),
        decreases n - i,
    {
        let x = if i == 0 {
            match &v.funding {
                Some(outs) => Some(outs[v.out.vout as usize].0),
                None => None,
            }
        } else if i < mapping.len() && mapping[i].is_some() && i < looked_up.len() {
            looked_up[i]
        } else {
            None
        };
        amounts.push(x);
        i += 1;
    }
    assert(amounts@ =~= input_amounts(v, mapping@, looked_up@, n as int));
    match t.check_funding_amounts(amounts.as_slice()) {
        Ok(rep) => Ok((bound, rep)),
        Err(e) => Err(BindFault::Amounts(e)),
    }
}

/// The path fragment that names a template by its hash.
pub open spec fn template_segment(key: Seq<u8>) -> FragmentView {
    FragmentView::Named(hex(key))
}

/// The contracts that template `k` of a visited contract binds next, one
/// per output, in order: each is funded by its output of the template's
/// transaction `txid`, and sits under the visited contract's path, then
/// `next` or `suggested`, the template's hash and the output's index.
pub open spec fn binds_child(a: &ArtifactModel, v: &BindVisit, k: int, txid: Seq<u8>, i: int, c: &BindVisit) -> bool {
    let t = a.nodes@[v.node as int].templates@[k];
    &&& c.node == t.children@[i]
    &&& op_view(&c.out) == (txid, i as u32)
    &&& fragment_views(c.bound_path@) == fragment_views(v.bound_path@) + seq![
        if t.committed {
            FragmentView::Next
        } else {
            FragmentView::Suggested
        },
        template_segment(t.key@),
        FragmentView::Branch(i as u64),
    ]
    &&& funding_view(c.funding) == Some(
        t.template.outputs@.map_values(|o: Output| (o.amount, o.contract.script_pubkey@)),
    )
}

/// The funding transaction's outputs as values.
fn outputs_funding(outs: &Vec<Output>) -> (r: Vec<(u64, Vec<u8>)>)
    ensures
        funding_view(Some(r)) == Some(outs@.map_values(|o: Output| (o.amount, o.contract.script_pubkey@))),
{
    let mut r: Vec<(u64, Vec<u8>)> = Vec::new();
    let mut i: usize = 0;
    while i < outs.len()
        invariant
            i <= outs@.len(),
            r@.len() == i,
            forall|j: int|
                0 <= j < i ==> (#[trigger] r@[j]).0 == outs@[j].amount && r@[j].1@
                    == outs@[j].contract.script_pubkey@,
        decreases outs@.len() - i,
    {
        r.push((outs[i].amount, copy_bytes(&outs[i].contract.script_pubkey)));
        i += 1;
    }
    assert(r@.map_values(|o: (u64, Vec<u8>)| (o.0, o.1@)) =~= outs@.map_values(
        |o: Output| (o.amount, o.contract.script_pubkey@),
    ));
    r
}

/// The contracts that template `k` of a visited contract binds next, once
/// its transaction id `txid` is known.
pub fn child_visits(a: &ArtifactModel, v: &BindVisit, k: usize, txid: &Vec<u8>) -> (r: Vec<BindVisit>)
    requires
        v.node < a.nodes@.len(),
        k < a.nodes@[v.node as int].templates@.len(),
        a.nodes@[v.node as int].templates@[k as int].children@.len()
            == a.nodes@[v.node as int].templates@[k as int].template.outputs@.len(),
        a.nodes@[v.node as int].templates@[k as int].template.outputs@.len() <= u32::MAX,
    ensures
        r@.len() == a.nodes@[v.node as int].templates@[k as int].children@.len(),
        forall|i: int| 0 <= i < r@.len() ==> #[trigger] binds_child(a, v, k as int, txid@, i, &r@[i]),
{
    let t = &a.nodes[v.node].templates[k];
    let mut name = String::new();
    push_hex(&mut name, &t.key);
    assert(name@ =~= hex(t.key@));
    let mut r: Vec<BindVisit> = Vec::new();
    let mut i: usize = 0;
    while i < t.children.len()
        invariant
            i <= t.children@.len(),
            t == &a.nodes@[v.node as int].templates@[k as int],
            t.children@.len() == t.template.outputs@.len(),
            t.template.outputs@.len() <= u32::MAX,
            name@ == hex(t.key@),
            r@.len() == i,
            forall|j: int| 0 <= j < i ==> #[trigger] binds_child(a, v, k as int, txid@, j, &r@[j]),
        decreases t.children@.len() - i,
    {
        let mut path = duplicate_fragments(&v.bound_path);
        let kind = if t.committed {
            PathFragment::Next
        } else {
            PathFragment::Suggested
        };
        path.push(kind);
        path.push(PathFragment::Named(name.clone()));
        path.push(PathFragment::Branch(i as u64));
        proof {
            assert(fragment_views(path@) =~= fragment_views(v.bound_path@) + seq![
                if t.committed {
                    FragmentView::Next
                } else {
                    FragmentView::Suggested
                },
                template_segment(t.key@),
                FragmentView::Branch(i as u64),
            ]);
        }
        let c = BindVisit {
            node: t.children[i],
            out: Outpoint { txid: copy_bytes(txid), vout: i as u32 },
            bound_path: path,
            funding: Some(outputs_funding(&t.template.outputs)),
        };
        r.push(c);
        i += 1;
    }
    r
}

/// An element is in a sequence with one more element pushed exactly when it
/// is that element or was in the sequence already.
proof fn lemma_push_contains<A>(s: Seq<A>, x: A, o: A)
    ensures
        s.push(x).contains(o) <==> (s.contains(o) || x == o),
{
    if s.contains(o) {
        let k = choose|k: int| 0 <= k < s.len() && s[k] == o;
        assert(s.push(x)[k] == o);
    }
    if x == o {
        assert(s.push(x)[s.len() as int] == o);
    }
    if s.push(x).contains(o) {
        let k = choose|k: int| 0 <= k < s.len() + 1 && s.push(x)[k] == o;
        if k < s.len() {
            assert(s[k] == o);
        }
    }
}

/// Outpoints as values.
pub open spec fn outpoint_views(s: Seq<Outpoint>) -> Seq<(Seq<u8>, u32)> {
    s.map_values(|p: Outpoint| op_view(&p))
}

/// The outpoints that placeholders may not take: every mapped outpoint, and
/// the output the root contract is bound to.
pub fn reserved_outpoints(mappings: &Vec<Vec<Option<Outpoint>>>, out_in: &Outpoint) -> (r: Vec<Outpoint>)
    ensures
        forall|o: (Seq<u8>, u32)|
            #[trigger] outpoint_views(r@).contains(o) <==> (o == op_view(out_in) || exists|
                i: int,
                j: int,
            |
                0 <= i < mappings@.len() && 0 <= j < mappings@[i]@.len() && #[trigger] mapping_view(
                    mappings@[i]@,
                )[j] == Some(o)),
{
    let mut r: Vec<Outpoint> = Vec::new();
    let mut i: usize = 0;
    while i < mappings.len()
        invariant
            i <= mappings@.len(),
            forall|o: (Seq<u8>, u32)|
                #[trigger] outpoint_views(r@).contains(o) <==> exists|ii: int, j: int|
                    0 <= ii < i && 0 <= j < mappings@[ii]@.len() && #[trigger] mapping_view(
                        mappings@[ii]@,
                    )[j] == Some(o),
        decreases mappings@.len() - i,
    {
        let m = &mappings[i];
        let mut j: usize = 0;
        while j < m.len()
            invariant
                i < mappings@.len(),
                m == &mappings@[i as int],
                j <= m@.len(),
                forall|o: (Seq<u8>, u32)|
                    #[trigger] outpoint_views(r@).contains(o) <==> (exists|ii: int, jj: int|
                        0 <= ii < i && 0 <= jj < mappings@[ii]@.len() && #[trigger] mapping_view(
                            mappings@[ii]@,
                        )[jj] == Some(o)) || exists|jj: int|
                        0 <= jj < j && #[trigger] mapping_view(m@)[jj] == Some(o),
            decreases m@.len() - j,
        {
            let ghost before = outpoint_views(r@);
            if let Some(p) = &m[j] {
                r.push(copy_outpoint(p));
                assert(outpoint_views(r@) =~= before.push(op_view(p)));
                assert(mapping_view(m@)[j as int] == Some(op_view(p)));
                assert forall|o: (Seq<u8>, u32)|
                    #[trigger] outpoint_views(r@).contains(o) <==> (exists|ii: int, jj: int|
                        0 <= ii < i && 0 <= jj < mappings@[ii]@.len() && #[trigger] mapping_view(
                            mappings@[ii]@,
                        )[jj] == Some(o)) || exists|jj: int|
                        0 <= jj < j + 1 && #[trigger] mapping_view(m@)[jj] == Some(o) by {
                    lemma_push_contains(before, op_view(p), o);
                    if exists|jj: int| 0 <= jj < j + 1 && #[trigger] mapping_view(m@)[jj] == Some(o) {
                        let jj = choose|jj: int| 0 <= jj < j + 1 && #[trigger] mapping_view(m@)[jj] == Some(o);
                        if jj < j {
                            assert(before.contains(o));
                        }
                    }
                }
            } else {
                assert(mapping_view(m@)[j as int] is None);
                assert forall|o: (Seq<u8>, u32)|
                    #[trigger] outpoint_views(r@).contains(o) <==> (exists|ii: int, jj: int|
                        0 <= ii < i && 0 <= jj < mappings@[ii]@.len() && #[trigger] mapping_view(
                            mappings@[ii]@,
                        )[jj] == Some(o)) || exists|jj: int|
                        0 <= jj < j + 1 && #[trigger] mapping_view(m@)[jj] == Some(o) by {
                    if exists|jj: int| 0 <= jj < j + 1 && #[trigger] mapping_view(m@)[jj] == Some(o) {
                        let jj = choose|jj: int| 0 <= jj < j + 1 && #[trigger] mapping_view(m@)[jj] == Some(o);
                        assert(jj < j);
                        assert(before.contains(o));
                    }
                }
            }
            j += 1;
        }
        assert forall|o: (Seq<u8>, u32)|
            #[trigger] outpoint_views(r@).contains(o) <==> exists|ii: int, jj: int|
                0 <= ii < i + 1 && 0 <= jj < mappings@[ii]@.len() && #[trigger] mapping_view(
                    mappings@[ii]@,
                )[jj] == Some(o) by {
            if exists|jj: int| 0 <= jj < m@.len() && #[trigger] mapping_view(m@)[jj] == Some(o) {
                let jj = choose|jj: int| 0 <= jj < m@.len() && #[trigger] mapping_view(m@)[jj] == Some(o);
                assert(mapping_view(mappings@[i as int]@)[jj] == Some(o));
            }
            if exists|ii: int, jj: int|
                0 <= ii < i + 1 && 0 <= jj < mappings@[ii]@.len() && #[trigger] mapping_view(
                    mappings@[ii]@,
                )[jj] == Some(o) {
                let (ii, jj) = choose|ii: int, jj: int|
                    0 <= ii < i + 1 && 0 <= jj < mappings@[ii]@.len() && #[trigger] mapping_view(
                        mappings@[ii]@,
                    )[jj] == Some(o);
                if ii == i {
                    assert(mapping_view(m@)[jj] == Some(o));
                }
            }
        }
        i += 1;
    }
    let ghost before = outpoint_views(r@);
    r.push(copy_outpoint(out_in));
    assert(outpoint_views(r@) =~= before.push(op_view(out_in)));
    assert forall|o: (Seq<u8>, u32)| #[trigger] outpoint_views(r@).contains(o) <==> (o == op_view(out_in)
        || before.contains(o)) by {
        lemma_push_contains(before, op_view(out_in), o);
    }
    r
}

/// The state of a binding walk: the contracts still to bind, the last one
/// first; the outpoints placeholders may not take; and the next placeholder
/// number.
pub struct BindWalk {
    /// Contracts reached but not yet bound.
    pub pending: Vec<BindVisit>,
    /// Outpoints a placeholder may not take.
    pub reserved: Vec<Outpoint>,
    /// The next placeholder number to try.
    pub next_mock: u32,
}

impl BindWalk {
    /// Start a walk at the root contract, bound to `out_in` and found under
    /// its own source path; `funding` holds the outputs of the transaction
    /// that creates `out_in`, when the index knows it. Placeholders start at
    /// number zero and avoid every mapped outpoint and `out_in`.
    pub fn start(
        a: &ArtifactModel,
        out_in: &Outpoint,
        funding: Option<Vec<(u64, Vec<u8>)>>,
        mappings: &Vec<Vec<Option<Outpoint>>>,
    ) -> (r: BindWalk)
        requires
            a.nodes@.len() > 0,
        ensures
            r.pending@.len() == 1,
            r.pending@[0].node == 0,
            op_view(&r.pending@[0].out) == op_view(out_in),
            fragment_views(r.pending@[0].bound_path@) == fragment_views(a.nodes@[0].source_path@),
            funding_view(r.pending@[0].funding) == funding_view(funding),
            forall|o: (Seq<u8>, u32)|
                #[trigger] outpoint_views(r.reserved@).contains(o) <==> (o == op_view(out_in) || exists|
                    i: int,
                    j: int,
                |
                    0 <= i < mappings@.len() && 0 <= j < mappings@[i]@.len() && #[trigger] mapping_view(
                        mappings@[i]@,
                    )[j] == Some(o)),
            r.next_mock == 0,
    {
        let root = BindVisit {
            node: 0,
            out: copy_outpoint(out_in),
            bound_path: duplicate_fragments(&a.nodes[0].source_path),
            funding,
        };
        let mut pending: Vec<BindVisit> = Vec::new();
        pending.push(root);
        BindWalk { pending, reserved: reserved_outpoints(mappings, out_in), next_mock: 0 }
    }

    /// The next contract to bind: the one reached last; `None` when the walk
    /// is done.
    pub fn next(&mut self) -> (r: Option<BindVisit>)
        ensures
            old(self).pending@.len() == 0 ==> r is None && final(self).pending@.len() == 0,
            old(self).pending@.len() > 0 ==> r == Some(old(self).pending@.last())
                && final(self).pending@ == old(self).pending@.drop_last(),
            final(self).reserved@ == old(self).reserved@,
            final(self).next_mock == old(self).next_mock,
    {
        self.pending.pop()
    }

    /// Queue the contracts a bound template reaches, in order.
    pub fn reach(&mut self, visits: Vec<BindVisit>)
        ensures
            final(self).pending@ == old(self).pending@ + visits@,
            final(self).reserved@ == old(self).reserved@,
            final(self).next_mock == old(self).next_mock,
    {
        let mut v = visits;
        self.pending.append(&mut v);
    }
}

} // verus!
