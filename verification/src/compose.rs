//! Composing guards and source policies: conjunction with Boolean
//! simplification that leaves inscription effects alone, choice, and the
//! split of a policy into its alternatives.
use vstd::prelude::*;
use crate::feasibility::{lemma_alternative_decreases, lemma_child_decreases, lemma_threshold_decreases};
use crate::policy::{Clause, EmulatedProgram, Inscription, ScriptPolicy};
use crate::preflight::lemma_policy_child_decreases;
use crate::template::copy_bytes;

verus! {

/// An inscription's envelope fields as byte strings.
pub struct InscriptionView {
    pub body: Option<Seq<u8>>,
    pub content_encoding: Option<Seq<u8>>,
    pub content_type: Option<Seq<u8>>,
    pub delegate: Option<Seq<u8>>,
    pub metadata: Option<Seq<u8>>,
    pub metaprotocol: Option<Seq<u8>>,
    pub parent: Option<Seq<u8>>,
    pub pointer: Option<Seq<u8>>,
}

/// A native policy as a mathematical value.
pub enum ClauseView {
    Unsatisfiable,
    Trivial,
    Key(Seq<u8>),
    Sha256(Seq<u8>),
    Hash256(Seq<u8>),
    Ripemd160(Seq<u8>),
    Hash160(Seq<u8>),
    After(u32),
    Older(u32),
    TxTemplate(Seq<u8>),
    And(Seq<ClauseView>),
    Or(Seq<(usize, ClauseView)>),
    Threshold(usize, Seq<ClauseView>),
    Inscribe(InscriptionView, Box<ClauseView>),
}

/// The bytes of an optional field.
pub open spec fn field_view(f: Option<Vec<u8>>) -> Option<Seq<u8>> {
    match f {
        Some(b) => Some(b@),
        None => None,
    }
}

/// An inscription as values.
pub open spec fn inscription_view(i: Inscription) -> InscriptionView {
    InscriptionView {
        body: field_view(i.body),
        content_encoding: field_view(i.content_encoding),
        content_type: field_view(i.content_type),
        delegate: field_view(i.delegate),
        metadata: field_view(i.metadata),
        metaprotocol: field_view(i.metaprotocol),
        parent: field_view(i.parent),
        pointer: field_view(i.pointer),
    }
}

/// A native policy as a value: byte strings by their bytes, children by
/// their values.
pub open spec fn clause_view(c: Clause) -> ClauseView
    decreases c, 0int,
{
    match c {
        Clause::Unsatisfiable => ClauseView::Unsatisfiable,
        Clause::Trivial => ClauseView::Trivial,
        Clause::Key(k) => ClauseView::Key(k@),
        Clause::Sha256(h) => ClauseView::Sha256(h@),
        Clause::Hash256(h) => ClauseView::Hash256(h@),
        Clause::Ripemd160(h) => ClauseView::Ripemd160(h@),
        Clause::Hash160(h) => ClauseView::Hash160(h@),
        Clause::After(t) => ClauseView::After(t),
        Clause::Older(t) => ClauseView::Older(t),
        Clause::TxTemplate(h) => ClauseView::TxTemplate(h@),
        Clause::And(v) => ClauseView::And(clause_views(v@, v@.len() as int)),
        Clause::Or(v) => ClauseView::Or(choice_views(v@, v@.len() as int)),
        Clause::Threshold(k, v) => ClauseView::Threshold(k, clause_views(v@, v@.len() as int)),
        Clause::Inscribe(i, child) => ClauseView::Inscribe(
            inscription_view(*i),
            Box::new(clause_view(*child)),
        ),
    }
}

/// The values of the first `k` policies.
pub open spec fn clause_views(s: Seq<Clause>, k: int) -> Seq<ClauseView>
    decreases s, k,
{
    if k <= 0 || k > s.len() {
        Seq::empty()
    } else {
        clause_views(s, k - 1).push(clause_view(s[k - 1]))
    }
}

/// The values of the first `k` weighted choices.
pub open spec fn choice_views(s: Seq<(usize, Clause)>, k: int) -> Seq<(usize, ClauseView)>
    decreases s, k,
{
    if k <= 0 || k > s.len() {
        Seq::empty()
    } else {
        choice_views(s, k - 1).push((s[k - 1].0, clause_view(s[k - 1].1)))
    }
}

proof fn lemma_clause_views_index(s: Seq<Clause>, k: int)
    requires
        0 <= k <= s.len(),
    ensures
        clause_views(s, k).len() == k,
        forall|j: int| 0 <= j < k ==> #[trigger] clause_views(s, k)[j] == clause_view(s[j]),
    decreases k,
{
    if k > 0 {
        lemma_clause_views_index(s, k - 1);
    }
}

proof fn lemma_choice_views_index(s: Seq<(usize, Clause)>, k: int)
    requires
        0 <= k <= s.len(),
    ensures
        choice_views(s, k).len() == k,
        forall|j: int|
            0 <= j < k ==> #[trigger] choice_views(s, k)[j] == (s[j].0, clause_view(s[j].1)),
    decreases k,
{
    if k > 0 {
        lemma_choice_views_index(s, k - 1);
    }
}

proof fn lemma_clause_views_agree(s: Seq<Clause>, t: Seq<Clause>)
    requires
        s.len() == t.len(),
        forall|j: int| 0 <= j < s.len() ==> clause_view(#[trigger] s[j]) == clause_view(t[j]),
    ensures
        clause_views(s, s.len() as int) == clause_views(t, t.len() as int),
{
    lemma_clause_views_index(s, s.len() as int);
    lemma_clause_views_index(t, t.len() as int);
    assert(clause_views(s, s.len() as int) =~= clause_views(t, t.len() as int));
}

proof fn lemma_choice_views_agree(s: Seq<(usize, Clause)>, t: Seq<(usize, Clause)>)
    requires
        s.len() == t.len(),
        forall|j: int|
            0 <= j < s.len() ==> #[trigger] s[j].0 == t[j].0 && clause_view(s[j].1) == clause_view(
                t[j].1,
            ),
    ensures
        choice_views(s, s.len() as int) == choice_views(t, t.len() as int),
{
    lemma_choice_views_index(s, s.len() as int);
    lemma_choice_views_index(t, t.len() as int);
    assert(choice_views(s, s.len() as int) =~= choice_views(t, t.len() as int));
}

proof fn lemma_inscribe_decreases(c: Clause)
    requires
        c is Inscribe,
    ensures
        decreases_to!(c => *c->Inscribe_1),
{
}

fn copy_field(f: &Option<Vec<u8>>) -> (r: Option<Vec<u8>>)
    ensures
        field_view(r) == field_view(*f),
{
    match f {
        Some(b) => Some(copy_bytes(b)),
        None => None,
    }
}

fn copy_inscription(i: &Inscription) -> (r: Inscription)
    ensures
        inscription_view(r) == inscription_view(*i),
{
    Inscription {
        body: copy_field(&i.body),
        content_encoding: copy_field(&i.content_encoding),
        content_type: copy_field(&i.content_type),
        delegate: copy_field(&i.delegate),
        metadata: copy_field(&i.metadata),
        metaprotocol: copy_field(&i.metaprotocol),
        parent: copy_field(&i.parent),
        pointer: copy_field(&i.pointer),
    }
}

/// A copy of a native policy, equal to it as a value.
pub fn copy_clause(c: &Clause) -> (r: Clause)
    ensures
        clause_view(r) == clause_view(*c),
    decreases c,
{
    match c {
        Clause::Unsatisfiable => Clause::Unsatisfiable,
        Clause::Trivial => Clause::Trivial,
        Clause::Key(k) => Clause::Key(copy_bytes(k)),
        Clause::Sha256(h) => Clause::Sha256(copy_bytes(h)),
        Clause::Hash256(h) => Clause::Hash256(copy_bytes(h)),
        Clause::Ripemd160(h) => Clause::Ripemd160(copy_bytes(h)),
        Clause::Hash160(h) => Clause::Hash160(copy_bytes(h)),
        Clause::After(t) => Clause::After(*t),
        Clause::Older(t) => Clause::Older(*t),
        Clause::TxTemplate(h) => Clause::TxTemplate(copy_bytes(h)),
        Clause::And(v) => {
            let mut out: Vec<Clause> = Vec::new();
            let mut i: usize = 0;
            while i < v.len()
                invariant
                    i <= v@.len(),
                    *c == Clause::And(*v),
                    out@.len() == i,
                    forall|j: int|
                        0 <= j < i ==> clause_view(#[trigger] out@[j]) == clause_view(v@[j]),
                decreases v@.len() - i,
            {
                proof {
                    lemma_child_decreases(*c, i as int);
                }
                out.push(copy_clause(&v[i]));
                i += 1;
            }
            proof {
                lemma_clause_views_agree(out@, v@);
            }
            Clause::And(out)
        },
        Clause::Or(v) => {
            let mut out: Vec<(usize, Clause)> = Vec::new();
            let mut i: usize = 0;
            while i < v.len()
                invariant
                    i <= v@.len(),
                    *c == Clause::Or(*v),
                    out@.len() == i,
                    forall|j: int|
                        0 <= j < i ==> #[trigger] out@[j].0 == v@[j].0 && clause_view(out@[j].1)
                            == clause_view(v@[j].1),
                decreases v@.len() - i,
            {
                proof {
                    lemma_alternative_decreases(*c, i as int);
                }
                let child = copy_clause(&v[i].1);
                out.push((v[i].0, child));
                i += 1;
            }
            proof {
                lemma_choice_views_agree(out@, v@);
            }
            Clause::Or(out)
        },
        Clause::Threshold(k, v) => {
            let mut out: Vec<Clause> = Vec::new();
            let mut i: usize = 0;
            while i < v.len()
                invariant
                    i <= v@.len(),
                    *c == Clause::Threshold(*k, *v),
                    out@.len() == i,
                    forall|j: int|
                        0 <= j < i ==> clause_view(#[trigger] out@[j]) == clause_view(v@[j]),
                decreases v@.len() - i,
            {
                proof {
                    lemma_threshold_decreases(*c, i as int);
                }
                out.push(copy_clause(&v[i]));
                i += 1;
            }
            proof {
                lemma_clause_views_agree(out@, v@);
            }
            Clause::Threshold(*k, out)
        },
        Clause::Inscribe(i, child) => {
            proof {
                lemma_inscribe_decreases(*c);
            }
            let inner = copy_clause(child);
            Clause::Inscribe(Box::new(copy_inscription(i)), Box::new(inner))
        },
    }
}

fn bytes_eq(a: &Vec<u8>, b: &Vec<u8>) -> (r: bool)
    ensures
        r == (a@ == b@),
{
    if a.len() != b.len() {
        return false;
    }
    let mut i: usize = 0;
    while i < a.len()
        invariant
            i <= a@.len(),
            a@.len() == b@.len(),
            forall|j: int| 0 <= j < i ==> a@[j] == b@[j],
        decreases a@.len() - i,
    {
        if a[i] != b[i] {
            return false;
        }
        i += 1;
    }
    assert(a@ =~= b@);
    true
}

fn field_eq(a: &Option<Vec<u8>>, b: &Option<Vec<u8>>) -> (r: bool)
    ensures
        r == (field_view(*a) == field_view(*b)),
{
    match (a, b) {
        (Some(x), Some(y)) => bytes_eq(x, y),
        (None, None) => true,
        _ => false,
    }
}

fn inscription_eq(a: &Inscription, b: &Inscription) -> (r: bool)
    ensures
        r == (inscription_view(*a) == inscription_view(*b)),
{
    field_eq(&a.body, &b.body) && field_eq(&a.content_encoding, &b.content_encoding) && field_eq(
        &a.content_type,
        &b.content_type,
    ) && field_eq(&a.delegate, &b.delegate) && field_eq(&a.metadata, &b.metadata) && field_eq(
        &a.metaprotocol,
        &b.metaprotocol,
    ) && field_eq(&a.parent, &b.parent) && field_eq(&a.pointer, &b.pointer)
}

/// Whether two native policies are equal as values.
pub fn clause_eq(a: &Clause, b: &Clause) -> (r: bool)
    ensures
        r == (clause_view(*a) == clause_view(*b)),
    decreases a,
{
    match (a, b) {
        (Clause::Unsatisfiable, Clause::Unsatisfiable) => true,
        (Clause::Trivial, Clause::Trivial) => true,
        (Clause::Key(x), Clause::Key(y)) => bytes_eq(x, y),
        (Clause::Sha256(x), Clause::Sha256(y)) => bytes_eq(x, y),
        (Clause::Hash256(x), Clause::Hash256(y)) => bytes_eq(x, y),
        (Clause::Ripemd160(x), Clause::Ripemd160(y)) => bytes_eq(x, y),
        (Clause::Hash160(x), Clause::Hash160(y)) => bytes_eq(x, y),
        (Clause::After(x), Clause::After(y)) => *x == *y,
        (Clause::Older(x), Clause::Older(y)) => *x == *y,
        (Clause::TxTemplate(x), Clause::TxTemplate(y)) => bytes_eq(x, y),
        (Clause::And(x), Clause::And(y)) => {
            proof {
                lemma_clause_views_index(x@, x@.len() as int);
                lemma_clause_views_index(y@, y@.len() as int);
            }
            if x.len() != y.len() {
                return false;
            }
            let mut i: usize = 0;
            while i < x.len()
                invariant
                    i <= x@.len(),
                    x@.len() == y@.len(),
                    *a == Clause::And(*x),
                    *b == Clause::And(*y),
                    forall|j: int|
                        0 <= j < i ==> clause_view(#[trigger] x@[j]) == clause_view(y@[j]),
                decreases x@.len() - i,
            {
                proof {
                    lemma_child_decreases(*a, i as int);
                }
                if !clause_eq(&x[i], &y[i]) {
                    proof {
                        lemma_clause_views_index(x@, x@.len() as int);
                        lemma_clause_views_index(y@, y@.len() as int);
                    }
                    assert(clause_views(x@, x@.len() as int)[i as int] != clause_views(
                        y@,
                        y@.len() as int,
                    )[i as int]);
                    return false;
                }
                i += 1;
            }
            proof {
                lemma_clause_views_agree(x@, y@);
            }
            true
        },
        (Clause::Or(x), Clause::Or(y)) => {
            proof {
                lemma_choice_views_index(x@, x@.len() as int);
                lemma_choice_views_index(y@, y@.len() as int);
            }
            if x.len() != y.len() {
                return false;
            }
            let mut i: usize = 0;
            while i < x.len()
                invariant
                    i <= x@.len(),
                    x@.len() == y@.len(),
                    *a == Clause::Or(*x),
                    *b == Clause::Or(*y),
                    forall|j: int|
                        0 <= j < i ==> (#[trigger] x@[j]).0 == y@[j].0 && clause_view(x@[j].1)
                            == clause_view(y@[j].1),
                decreases x@.len() - i,
            {
                proof {
                    lemma_alternative_decreases(*a, i as int);
                }
                if x[i].0 != y[i].0 || !clause_eq(&x[i].1, &y[i].1) {
                    proof {
                        lemma_choice_views_index(x@, x@.len() as int);
                        lemma_choice_views_index(y@, y@.len() as int);
                    }
                    assert(choice_views(x@, x@.len() as int)[i as int] != choice_views(
                        y@,
                        y@.len() as int,
                    )[i as int]);
                    return false;
                }
                i += 1;
            }
            proof {
                lemma_choice_views_agree(x@, y@);
            }
            true
        },
        (Clause::Threshold(k1, x), Clause::Threshold(k2, y)) => {
            proof {
                lemma_clause_views_index(x@, x@.len() as int);
                lemma_clause_views_index(y@, y@.len() as int);
            }
            if *k1 != *k2 || x.len() != y.len() {
                return false;
            }
            let mut i: usize = 0;
            while i < x.len()
                invariant
                    i <= x@.len(),
                    x@.len() == y@.len(),
                    *a == Clause::Threshold(*k1, *x),
                    *b == Clause::Threshold(*k2, *y),
                    *k1 == *k2,
                    forall|j: int|
                        0 <= j < i ==> clause_view(#[trigger] x@[j]) == clause_view(y@[j]),
                decreases x@.len() - i,
            {
                proof {
                    lemma_threshold_decreases(*a, i as int);
                }
                if !clause_eq(&x[i], &y[i]) {
                    proof {
                        lemma_clause_views_index(x@, x@.len() as int);
                        lemma_clause_views_index(y@, y@.len() as int);
                    }
                    assert(clause_views(x@, x@.len() as int)[i as int] != clause_views(
                        y@,
                        y@.len() as int,
                    )[i as int]);
                    return false;
                }
                i += 1;
            }
            proof {
                lemma_clause_views_agree(x@, y@);
            }
            true
        },
        (Clause::Inscribe(i1, c1), Clause::Inscribe(i2, c2)) => {
            proof {
                lemma_inscribe_decreases(*a);
            }
            inscription_eq(i1, i2) && clause_eq(c1, c2)
        },
        _ => false,
    }
}

/// Whether some node of the policy carries an inscription.
pub open spec fn has_inscription(c: ClauseView) -> bool
    decreases c, 0int,
{
    match c {
        ClauseView::Inscribe(..) => true,
        ClauseView::And(v) => any_inscribed(v, v.len() as int),
        ClauseView::Threshold(_, v) => any_inscribed(v, v.len() as int),
        ClauseView::Or(v) => any_choice_inscribed(v, v.len() as int),
        _ => false,
    }
}

/// Whether one of the first `k` policies carries an inscription.
pub open spec fn any_inscribed(s: Seq<ClauseView>, k: int) -> bool
    decreases s, k,
{
    if k <= 0 || k > s.len() {
        false
    } else {
        any_inscribed(s, k - 1) || has_inscription(s[k - 1])
    }
}

/// Whether one of the first `k` choices carries an inscription.
pub open spec fn any_choice_inscribed(s: Seq<(usize, ClauseView)>, k: int) -> bool
    decreases s, k,
{
    if k <= 0 || k > s.len() {
        false
    } else {
        any_choice_inscribed(s, k - 1) || has_inscription(s[k - 1].1)
    }
}

/// The guards kept among the first `k`, in order: trivial guards dropped,
/// a repeat dropped unless an inscription occurs in it. An inscription
/// envelope is a script effect, so neither its order nor its multiplicity
/// follows Boolean idempotence.
pub open spec fn kept_guards(g: Seq<ClauseView>, k: int) -> Seq<ClauseView>
    decreases k,
{
    if k <= 0 || k > g.len() {
        Seq::empty()
    } else {
        let r = kept_guards(g, k - 1);
        let x = g[k - 1];
        if x is Trivial {
            r
        } else if has_inscription(x) || !r.contains(x) {
            r.push(x)
        } else {
            r
        }
    }
}

/// The conjunction of guards: unsatisfiable if any is, otherwise the kept
/// guards, trivially true when none is left, the guard itself when one is,
/// their conjunction when two are, and an all-of threshold beyond.
pub open spec fn conjoin_guards_spec(g: Seq<ClauseView>) -> ClauseView {
    if exists|i: int| 0 <= i < g.len() && g[i] is Unsatisfiable {
        ClauseView::Unsatisfiable
    } else {
        let r = kept_guards(g, g.len() as int);
        if r.len() == 0 {
            ClauseView::Trivial
        } else if r.len() == 1 {
            r[0]
        } else if r.len() == 2 {
            ClauseView::And(r)
        } else {
            ClauseView::Threshold(r.len() as usize, r)
        }
    }
}

/// The values of a sequence of borrowed policies.
pub open spec fn guard_views(g: Seq<&Clause>) -> Seq<ClauseView> {
    g.map_values(|c: &Clause| clause_view(*c))
}

proof fn lemma_clause_views_push(s: Seq<Clause>, x: Clause)
    ensures
        clause_views(s.push(x), s.len() + 1int) == clause_views(s, s.len() as int).push(clause_view(x)),
{
    lemma_clause_views_index(s, s.len() as int);
    lemma_clause_views_index(s.push(x), s.len() + 1int);
    assert(clause_views(s.push(x), s.len() + 1int) =~= clause_views(s, s.len() as int).push(
        clause_view(x),
    ));
}

proof fn lemma_any_inscribed_grows(s: Seq<ClauseView>, k: int, m: int)
    requires
        0 <= k <= m <= s.len(),
        any_inscribed(s, k),
    ensures
        any_inscribed(s, m),
    decreases m - k,
{
    if m > k {
        lemma_any_inscribed_grows(s, k, m - 1);
    }
}

proof fn lemma_any_choice_inscribed_grows(s: Seq<(usize, ClauseView)>, k: int, m: int)
    requires
        0 <= k <= m <= s.len(),
        any_choice_inscribed(s, k),
    ensures
        any_choice_inscribed(s, m),
    decreases m - k,
{
    if m > k {
        lemma_any_choice_inscribed_grows(s, k, m - 1);
    }
}

/// Whether some node of the policy carries an inscription.
pub fn contains_inscription(c: &Clause) -> (r: bool)
    ensures
        r == has_inscription(clause_view(*c)),
    decreases c,
{
    match c {
        Clause::Inscribe(..) => true,
        Clause::And(v) => {
            proof {
                lemma_clause_views_index(v@, v@.len() as int);
            }
            let mut i: usize = 0;
            while i < v.len()
                invariant
                    i <= v@.len(),
                    *c == Clause::And(*v),
                    !any_inscribed(clause_views(v@, v@.len() as int), i as int),
                    clause_views(v@, v@.len() as int).len() == v@.len(),
                    forall|j: int|
                        0 <= j < v@.len() ==> #[trigger] clause_views(v@, v@.len() as int)[j]
                            == clause_view(v@[j]),
                decreases v@.len() - i,
            {
                proof {
                    lemma_child_decreases(*c, i as int);
                }
                if contains_inscription(&v[i]) {
                    proof {
                        lemma_any_inscribed_grows(
                            clause_views(v@, v@.len() as int),
                            i + 1,
                            v@.len() as int,
                        );
                    }
                    return true;
                }
                i += 1;
            }
            proof {
                lemma_clause_views_index(v@, v@.len() as int);
            }
            false
        },
        Clause::Threshold(k, v) => {
            proof {
                lemma_clause_views_index(v@, v@.len() as int);
            }
            let mut i: usize = 0;
            while i < v.len()
                invariant
                    i <= v@.len(),
                    *c == Clause::Threshold(*k, *v),
                    !any_inscribed(clause_views(v@, v@.len() as int), i as int),
                    clause_views(v@, v@.len() as int).len() == v@.len(),
                    forall|j: int|
                        0 <= j < v@.len() ==> #[trigger] clause_views(v@, v@.len() as int)[j]
                            == clause_view(v@[j]),
                decreases v@.len() - i,
            {
                proof {
                    lemma_threshold_decreases(*c, i as int);
                }
                if contains_inscription(&v[i]) {
                    proof {
                        lemma_any_inscribed_grows(
                            clause_views(v@, v@.len() as int),
                            i + 1,
                            v@.len() as int,
                        );
                    }
                    return true;
                }
                i += 1;
            }
            proof {
                lemma_clause_views_index(v@, v@.len() as int);
            }
            false
        },
        Clause::Or(v) => {
            proof {
                lemma_choice_views_index(v@, v@.len() as int);
            }
            let mut i: usize = 0;
            while i < v.len()
                invariant
                    i <= v@.len(),
                    *c == Clause::Or(*v),
                    !any_choice_inscribed(choice_views(v@, v@.len() as int), i as int),
                    choice_views(v@, v@.len() as int).len() == v@.len(),
                    forall|j: int|
                        0 <= j < v@.len() ==> #[trigger] choice_views(v@, v@.len() as int)[j] == (
                        v@[j].0,
                        clause_view(v@[j].1),
                    ),
                decreases v@.len() - i,
            {
                proof {
                    lemma_alternative_decreases(*c, i as int);
                }
                if contains_inscription(&v[i].1) {
                    proof {
                        lemma_any_choice_inscribed_grows(
                            choice_views(v@, v@.len() as int),
                            i + 1,
                            v@.len() as int,
                        );
                    }
                    return true;
                }
                i += 1;
            }
            proof {
                lemma_choice_views_index(v@, v@.len() as int);
            }
            false
        },
        _ => false,
    }
}

/// Whether a policy equal to `c` is among these.
fn contains_clause(v: &Vec<Clause>, c: &Clause) -> (r: bool)
    ensures
        r == clause_views(v@, v@.len() as int).contains(clause_view(*c)),
{
    proof {
        lemma_clause_views_index(v@, v@.len() as int);
    }
    let mut i: usize = 0;
    while i < v.len()
        invariant
            i <= v@.len(),
            clause_views(v@, v@.len() as int).len() == v@.len(),
            forall|j: int|
                0 <= j < v@.len() ==> #[trigger] clause_views(v@, v@.len() as int)[j] == clause_view(
                    v@[j],
                ),
            forall|j: int| 0 <= j < i ==> clause_view(#[trigger] v@[j]) != clause_view(*c),
        decreases v@.len() - i,
    {
        if clause_eq(&v[i], c) {
            assert(clause_views(v@, v@.len() as int)[i as int] == clause_view(*c));
            return true;
        }
        i += 1;
    }
    false
}

/// The conjunction of these guards: unsatisfiable if any is; trivial guards
/// dropped, repeats dropped unless they carry an inscription; trivially
/// true when none is left, the guard itself when one is, their conjunction
/// when two are, and an all-of threshold beyond.
pub fn conjoin_guards(guards: &[&Clause]) -> (r: Clause)
    ensures
        clause_view(r) == conjoin_guards_spec(guard_views(guards@)),
{
    let ghost gv = guard_views(guards@);
    let mut combined: Vec<Clause> = Vec::new();
    let mut i: usize = 0;
    while i < guards.len()
        invariant
            i <= guards@.len(),
            gv == guard_views(guards@),
            gv.len() == guards@.len(),
            forall|j: int| 0 <= j < i ==> !(#[trigger] gv[j] is Unsatisfiable),
            clause_views(combined@, combined@.len() as int) == kept_guards(gv, i as int),
        decreases guards@.len() - i,
    {
        let guard = guards[i];
        assert(gv[i as int] == clause_view(*guard));
        if let Clause::Unsatisfiable = guard {
            assert(gv[i as int] is Unsatisfiable);
            return Clause::Unsatisfiable;
        }
        let trivial = match guard {
            Clause::Trivial => true,
            _ => false,
        };
        if !trivial {
            let keep = contains_inscription(guard) || !contains_clause(&combined, guard);
            if keep {
                let copy = copy_clause(guard);
                proof {
                    lemma_clause_views_push(combined@, copy);
                }
                combined.push(copy);
            }
        }
        i += 1;
    }
    proof {
        lemma_clause_views_index(combined@, combined@.len() as int);
    }
    let n = combined.len();
    if n == 0 {
        Clause::Trivial
    } else if n == 1 {
        let only = combined.pop().unwrap();
        only
    } else if n == 2 {
        Clause::And(combined)
    } else {
        Clause::Threshold(n, combined)
    }
}

proof fn lemma_kept_prefix(g: Seq<ClauseView>, x: ClauseView, k: int)
    requires
        0 <= k <= g.len(),
    ensures
        kept_guards(g.push(x), k) == kept_guards(g, k),
    decreases k,
{
    if k > 0 {
        lemma_kept_prefix(g, x, k - 1);
        assert(g.push(x)[k - 1] == g[k - 1]);
    }
}

proof fn lemma_kept_covers(g: Seq<ClauseView>, k: int, i: int)
    requires
        0 <= i < k <= g.len(),
        !(g[i] is Trivial),
    ensures
        kept_guards(g, k).contains(g[i]),
    decreases k,
{
    if i < k - 1 {
        lemma_kept_covers(g, k - 1, i);
        let r = kept_guards(g, k - 1);
        let w = choose|j: int| 0 <= j < r.len() && r[j] == g[i];
        if !(g[k - 1] is Trivial) && (has_inscription(g[k - 1]) || !r.contains(g[k - 1])) {
            assert(r.push(g[k - 1])[w] == g[i]);
        }
    } else {
        let r = kept_guards(g, k - 1);
        if has_inscription(g[i]) || !r.contains(g[i]) {
            assert(r.push(g[i])[r.len() as int] == g[i]);
        }
    }
}

/// An unsatisfiable guard makes the whole conjunction unsatisfiable.
pub proof fn lemma_conjoin_unsatisfiable_absorbs(g: Seq<ClauseView>, i: int)
    requires
        0 <= i < g.len(),
        g[i] is Unsatisfiable,
    ensures
        conjoin_guards_spec(g) == ClauseView::Unsatisfiable,
{
}

/// Conjoining a single guard gives the guard back.
pub proof fn lemma_conjoin_single(x: ClauseView)
    ensures
        conjoin_guards_spec(seq![x]) == x,
{
    let g = seq![x];
    if !(x is Unsatisfiable) {
        assert(!(exists|i: int| 0 <= i < g.len() && g[i] is Unsatisfiable));
        assert(kept_guards(g, 0) =~= Seq::<ClauseView>::empty());
        if !(x is Trivial) {
            assert(kept_guards(g, 1) =~= seq![x]);
        }
    }
}

/// A trivially true guard changes no conjunction.
pub proof fn lemma_conjoin_trivial_neutral(g: Seq<ClauseView>)
    ensures
        conjoin_guards_spec(g.push(ClauseView::Trivial)) == conjoin_guards_spec(g),
{
    let h = g.push(ClauseView::Trivial);
    lemma_kept_prefix(g, ClauseView::Trivial, g.len() as int);
    if exists|i: int| 0 <= i < g.len() && g[i] is Unsatisfiable {
        let i = choose|i: int| 0 <= i < g.len() && g[i] is Unsatisfiable;
        assert(h[i] is Unsatisfiable);
    } else {
        assert forall|i: int| 0 <= i < h.len() implies !(h[i] is Unsatisfiable) by {
            if i < g.len() {
                assert(h[i] == g[i]);
            }
        }
    }
}

/// Repeating a guard that carries no inscription changes no conjunction:
/// Boolean conjunction is idempotent.
pub proof fn lemma_conjoin_idempotent(g: Seq<ClauseView>, i: int)
    requires
        0 <= i < g.len(),
        !has_inscription(g[i]),
    ensures
        conjoin_guards_spec(g.push(g[i])) == conjoin_guards_spec(g),
{
    let x = g[i];
    let h = g.push(x);
    lemma_kept_prefix(g, x, g.len() as int);
    if !(x is Trivial) {
        lemma_kept_covers(g, g.len() as int, i);
    }
    if exists|j: int| 0 <= j < g.len() && g[j] is Unsatisfiable {
        let j = choose|j: int| 0 <= j < g.len() && g[j] is Unsatisfiable;
        assert(h[j] is Unsatisfiable);
    } else {
        assert forall|j: int| 0 <= j < h.len() implies !(h[j] is Unsatisfiable) by {
            if j < g.len() {
                assert(h[j] == g[j]);
            } else {
                assert(h[j] == g[i]);
            }
        }
    }
}

/// A guard that carries an inscription is always kept, after the guards
/// before it: inscriptions keep their order and their multiplicity.
pub proof fn lemma_conjoin_keeps_inscriptions(g: Seq<ClauseView>, x: ClauseView)
    requires
        has_inscription(x),
    ensures
        kept_guards(g.push(x), g.len() + 1int) == kept_guards(g, g.len() as int).push(x),
{
    lemma_kept_prefix(g, x, g.len() as int);
}

/// A source policy as a mathematical value.
pub enum PolicyView {
    Program(Seq<u8>, Seq<u8>),
    Emulatable(Seq<u8>),
    Miniscript(ClauseView),
    Script(Seq<u8>),
    And(Seq<PolicyView>),
    Or(Seq<PolicyView>),
}

/// A source policy as a value.
pub open spec fn policy_view(p: ScriptPolicy) -> PolicyView
    decreases p, 0int,
{
    match p {
        ScriptPolicy::Program(pr) => PolicyView::Program(pr.program@, pr.parameters@),
        ScriptPolicy::Emulatable(h) => PolicyView::Emulatable(h@),
        ScriptPolicy::Miniscript(c) => PolicyView::Miniscript(clause_view(c)),
        ScriptPolicy::Script(b) => PolicyView::Script(b@),
        ScriptPolicy::And(v) => PolicyView::And(policy_views(v@, v@.len() as int)),
        ScriptPolicy::Or(v) => PolicyView::Or(policy_views(v@, v@.len() as int)),
    }
}

/// The values of the first `k` policies.
pub open spec fn policy_views(s: Seq<ScriptPolicy>, k: int) -> Seq<PolicyView>
    decreases s, k,
{
    if k <= 0 || k > s.len() {
        Seq::empty()
    } else {
        policy_views(s, k - 1).push(policy_view(s[k - 1]))
    }
}

/// The values of a whole sequence of policies.
pub open spec fn all_policy_views(s: Seq<ScriptPolicy>) -> Seq<PolicyView> {
    policy_views(s, s.len() as int)
}

proof fn lemma_policy_views_index(s: Seq<ScriptPolicy>, k: int)
    requires
        0 <= k <= s.len(),
    ensures
        policy_views(s, k).len() == k,
        forall|j: int| 0 <= j < k ==> #[trigger] policy_views(s, k)[j] == policy_view(s[j]),
    decreases k,
{
    if k > 0 {
        lemma_policy_views_index(s, k - 1);
    }
}

proof fn lemma_policy_views_agree(s: Seq<ScriptPolicy>, t: Seq<PolicyView>)
    requires
        s.len() == t.len(),
        forall|j: int| 0 <= j < s.len() ==> policy_view(#[trigger] s[j]) == t[j],
    ensures
        all_policy_views(s) == t,
{
    lemma_policy_views_index(s, s.len() as int);
    assert(all_policy_views(s) =~= t);
}

fn copy_program(p: &EmulatedProgram) -> (r: EmulatedProgram)
    ensures
        r.program@ == p.program@,
        r.parameters@ == p.parameters@,
{
    EmulatedProgram { program: copy_bytes(&p.program), parameters: copy_bytes(&p.parameters) }
}

/// A copy of a source policy, equal to it as a value.
pub fn copy_policy(p: &ScriptPolicy) -> (r: ScriptPolicy)
    ensures
        policy_view(r) == policy_view(*p),
    decreases p,
{
    match p {
        ScriptPolicy::Program(pr) => ScriptPolicy::Program(copy_program(pr)),
        ScriptPolicy::Emulatable(h) => ScriptPolicy::Emulatable(copy_bytes(h)),
        ScriptPolicy::Miniscript(c) => ScriptPolicy::Miniscript(copy_clause(c)),
        ScriptPolicy::Script(b) => ScriptPolicy::Script(copy_bytes(b)),
        ScriptPolicy::And(v) => {
            let mut out: Vec<ScriptPolicy> = Vec::new();
            let mut i: usize = 0;
            while i < v.len()
                invariant
                    i <= v@.len(),
                    *p == ScriptPolicy::And(*v),
                    out@.len() == i,
                    forall|j: int|
                        0 <= j < i ==> policy_view(#[trigger] out@[j]) == policy_view(v@[j]),
                decreases v@.len() - i,
            {
                proof {
                    lemma_policy_child_decreases(*p, i as int);
                }
                out.push(copy_policy(&v[i]));
                i += 1;
            }
            proof {
                lemma_policy_views_index(v@, v@.len() as int);
                lemma_policy_views_agree(out@, all_policy_views(v@));
            }
            ScriptPolicy::And(out)
        },
        ScriptPolicy::Or(v) => {
            let mut out: Vec<ScriptPolicy> = Vec::new();
            let mut i: usize = 0;
            while i < v.len()
                invariant
                    i <= v@.len(),
                    *p == ScriptPolicy::Or(*v),
                    out@.len() == i,
                    forall|j: int|
                        0 <= j < i ==> policy_view(#[trigger] out@[j]) == policy_view(v@[j]),
                decreases v@.len() - i,
            {
                proof {
                    lemma_policy_child_decreases(*p, i as int);
                }
                out.push(copy_policy(&v[i]));
                i += 1;
            }
            proof {
                lemma_policy_views_index(v@, v@.len() as int);
                lemma_policy_views_agree(out@, all_policy_views(v@));
            }
            ScriptPolicy::Or(out)
        },
    }
}

/// A trivially true policy: the trivial native policy, or the empty
/// conjunction.
pub open spec fn trivial_view(p: PolicyView) -> bool {
    p == PolicyView::Miniscript(ClauseView::Trivial) || p == PolicyView::And(Seq::empty())
}

/// Whether a policy is trivially true.
pub fn is_trivial(policy: &ScriptPolicy) -> (r: bool)
    ensures
        r == trivial_view(policy_view(*policy)),
{
    match policy {
        ScriptPolicy::Miniscript(Clause::Trivial) => true,
        ScriptPolicy::And(children) => {
            if children.len() == 0 {
                assert(policy_views(children@, 0) =~= Seq::<PolicyView>::empty());
                true
            } else {
                proof {
                    lemma_policy_views_index(children@, children@.len() as int);
                }
                false
            }
        },
        ScriptPolicy::Miniscript(c) => {
            assert(!(clause_view(*c) is Trivial));
            false
        },
        _ => false,
    }
}

/// The guards a policy stands for: none when it is trivially true,
/// otherwise the policy itself.
pub fn policy_as_guards(policy: ScriptPolicy) -> (r: Vec<ScriptPolicy>)
    ensures
        trivial_view(policy_view(policy)) ==> r@.len() == 0,
        !trivial_view(policy_view(policy)) ==> r@ == seq![policy],
{
    if is_trivial(&policy) {
        Vec::new()
    } else {
        let mut v: Vec<ScriptPolicy> = Vec::new();
        v.push(policy);
        assert(v@ =~= seq![policy]);
        v
    }
}

/// Whether every policy is native.
pub open spec fn all_native(s: Seq<PolicyView>) -> bool {
    forall|i: int| 0 <= i < s.len() ==> #[trigger] s[i] is Miniscript
}

/// The native policies of native source policies.
pub open spec fn natives(s: Seq<PolicyView>) -> Seq<ClauseView> {
    s.map_values(|p: PolicyView| p->Miniscript_0)
}

/// The first `k` policies that are not trivially true, in order.
pub open spec fn nontrivial(s: Seq<PolicyView>, k: int) -> Seq<PolicyView>
    decreases k,
{
    if k <= 0 || k > s.len() {
        Seq::empty()
    } else {
        let r = nontrivial(s, k - 1);
        if trivial_view(s[k - 1]) {
            r
        } else {
            r.push(s[k - 1])
        }
    }
}

/// The conjunction of source policies: native ones conjoined as guards,
/// otherwise the policies that are not trivially true, in order, a single
/// one standing for itself.
pub open spec fn conjoin_source_spec(s: Seq<PolicyView>) -> PolicyView {
    if all_native(s) {
        PolicyView::Miniscript(conjoin_guards_spec(natives(s)))
    } else {
        let r = nontrivial(s, s.len() as int);
        if r.len() == 1 {
            r[0]
        } else {
            PolicyView::And(r)
        }
    }
}

/// The values of a sequence of borrowed source policies.
pub open spec fn source_views(s: Seq<&ScriptPolicy>) -> Seq<PolicyView> {
    s.map_values(|p: &ScriptPolicy| policy_view(*p))
}

proof fn lemma_policy_views_push(s: Seq<ScriptPolicy>, x: ScriptPolicy)
    ensures
        all_policy_views(s.push(x)) == all_policy_views(s).push(policy_view(x)),
{
    lemma_policy_views_index(s, s.len() as int);
    lemma_policy_views_index(s.push(x), s.len() + 1int);
    assert(all_policy_views(s.push(x)) =~= all_policy_views(s).push(policy_view(x)));
}

fn is_native(policy: &ScriptPolicy) -> (r: bool)
    ensures
        r == (policy is Miniscript),
{
    match policy {
        ScriptPolicy::Miniscript(_) => true,
        _ => false,
    }
}

/// Compose source policies by conjunction without lowering a raw fragment
/// prematurely: native policies conjoin as guards; otherwise the policies
/// that are not trivially true are kept in order.
pub fn conjoin_source(policies: &[&ScriptPolicy]) -> (r: ScriptPolicy)
    ensures
        policy_view(r) == conjoin_source_spec(source_views(policies@)),
{
    let ghost pv = source_views(policies@);
    let mut all = true;
    let mut i: usize = 0;
    while i < policies.len()
        invariant
            i <= policies@.len(),
            pv == source_views(policies@),
            all == (forall|j: int| 0 <= j < i ==> #[trigger] pv[j] is Miniscript),
        decreases policies@.len() - i,
    {
        assert(pv[i as int] == policy_view(*policies@[i as int]));
        if !is_native(policies[i]) {
            all = false;
        }
        i += 1;
    }
    if all {
        let mut clauses: Vec<&Clause> = Vec::new();
        let mut k: usize = 0;
        while k < policies.len()
            invariant
                k <= policies@.len(),
                pv == source_views(policies@),
                all_native(pv),
                guard_views(clauses@) == natives(pv).take(k as int),
            decreases policies@.len() - k,
        {
            assert(pv[k as int] is Miniscript);
            match policies[k] {
                ScriptPolicy::Miniscript(c) => {
                    let ghost before = clauses@;
                    assert(pv[k as int] == policy_view(*policies@[k as int]));
                    assert(natives(pv)[k as int] == clause_view(*c));
                    clauses.push(c);
                    assert(clauses@ == before.push(c));
                    assert(guard_views(clauses@) =~= guard_views(before).push(clause_view(*c)));
                    assert(natives(pv).take(k + 1) =~= natives(pv).take(k as int).push(
                        natives(pv)[k as int],
                    ));
                },
                _ => {},
            }
            k += 1;
        }
        assert(natives(pv).take(k as int) =~= natives(pv));
        return ScriptPolicy::Miniscript(conjoin_guards(clauses.as_slice()));
    }
    let mut kept: Vec<ScriptPolicy> = Vec::new();
    let mut k: usize = 0;
    while k < policies.len()
        invariant
            k <= policies@.len(),
            pv == source_views(policies@),
            all_policy_views(kept@) == nontrivial(pv, k as int),
        decreases policies@.len() - k,
    {
        assert(pv[k as int] == policy_view(*policies@[k as int]));
        if !is_trivial(policies[k]) {
            let copy = copy_policy(policies[k]);
            proof {
                lemma_policy_views_push(kept@, copy);
            }
            kept.push(copy);
        }
        k += 1;
    }
    proof {
        lemma_policy_views_index(kept@, kept@.len() as int);
    }
    if kept.len() == 1 {
        let only = kept.pop().unwrap();
        only
    } else {
        ScriptPolicy::And(kept)
    }
}

/// The choice among source policies: unsatisfiable among none, a single
/// one standing for itself, native ones as a one-of threshold, otherwise
/// their disjunction, in order.
pub open spec fn disjoin_source_spec(s: Seq<PolicyView>) -> PolicyView {
    if s.len() == 0 {
        PolicyView::Miniscript(ClauseView::Unsatisfiable)
    } else if s.len() == 1 {
        s[0]
    } else if all_native(s) {
        PolicyView::Miniscript(ClauseView::Threshold(1, natives(s)))
    } else {
        PolicyView::Or(s)
    }
}

/// Compose source policies, already in set order, by choice.
pub fn disjoin_source(policies: Vec<ScriptPolicy>) -> (r: ScriptPolicy)
    ensures
        policy_view(r) == disjoin_source_spec(all_policy_views(policies@)),
{
    let ghost pv = all_policy_views(policies@);
    proof {
        lemma_policy_views_index(policies@, policies@.len() as int);
    }
    if policies.len() == 0 {
        return ScriptPolicy::Miniscript(Clause::Unsatisfiable);
    }
    if policies.len() == 1 {
        let mut one = policies;
        let only = one.pop().unwrap();
        return only;
    }
    let mut all = true;
    let mut i: usize = 0;
    while i < policies.len()
        invariant
            i <= policies@.len(),
            pv == all_policy_views(policies@),
            pv.len() == policies@.len(),
            forall|j: int| 0 <= j < policies@.len() ==> #[trigger] pv[j] == policy_view(policies@[j]),
            all == (forall|j: int| 0 <= j < i ==> #[trigger] pv[j] is Miniscript),
        decreases policies@.len() - i,
    {
        assert(pv[i as int] == policy_view(policies@[i as int]));
        if !is_native(&policies[i]) {
            all = false;
        }
        i += 1;
    }
    if !all {
        return ScriptPolicy::Or(policies);
    }
    let ghost orig = policies@;
    assert(orig.len() == policies.len());
    let mut rest = policies;
    let mut clauses: Vec<Clause> = Vec::new();
    let mut k: usize = 0;
    while rest.len() > 0
        invariant
            k <= orig.len(),
            orig.len() <= usize::MAX,
            rest@ == orig.skip(k as int),
            pv == all_policy_views(orig),
            pv.len() == orig.len(),
            forall|j: int| 0 <= j < orig.len() ==> #[trigger] pv[j] == policy_view(orig[j]),
            all_native(pv),
            clauses@.len() == k,
            forall|j: int| 0 <= j < k ==> clause_view(#[trigger] clauses@[j]) == natives(pv)[j],
        decreases rest@.len(),
    {
        assert(rest@.len() == orig.len() - k);
        let p = rest.remove(0);
        assert(p == orig[k as int]);
        assert(pv[k as int] is Miniscript);
        match p {
            ScriptPolicy::Miniscript(c) => {
                clauses.push(c);
            },
            _ => {},
        }
        assert(rest@ =~= orig.skip(k + 1));
        k += 1;
    }
    proof {
        lemma_clause_views_index(clauses@, clauses@.len() as int);
        assert(clause_views(clauses@, clauses@.len() as int) =~= natives(pv));
    }
    ScriptPolicy::Miniscript(Clause::Threshold(1, clauses))
}

/// The alternatives of a native policy: choices and one-of thresholds
/// split recursively, anything else one alternative.
pub open spec fn flatten_spec(c: ClauseView) -> Seq<ClauseView>
    decreases c, 0int,
{
    match c {
        ClauseView::Or(v) => flatten_choices(v, v.len() as int),
        ClauseView::Threshold(k, v) => if k == 1 {
            flatten_children(v, v.len() as int)
        } else {
            seq![c]
        },
        _ => seq![c],
    }
}

/// The alternatives of the first `k` choices, in order.
pub open spec fn flatten_choices(s: Seq<(usize, ClauseView)>, k: int) -> Seq<ClauseView>
    decreases s, k,
{
    if k <= 0 || k > s.len() {
        Seq::empty()
    } else {
        flatten_choices(s, k - 1) + flatten_spec(s[k - 1].1)
    }
}

/// The alternatives of the first `k` children of a one-of threshold.
pub open spec fn flatten_children(s: Seq<ClauseView>, k: int) -> Seq<ClauseView>
    decreases s, k,
{
    if k <= 0 || k > s.len() {
        Seq::empty()
    } else {
        flatten_children(s, k - 1) + flatten_spec(s[k - 1])
    }
}

/// The values of a whole sequence of native policies.
pub open spec fn all_clause_views(s: Seq<Clause>) -> Seq<ClauseView> {
    clause_views(s, s.len() as int)
}

proof fn lemma_all_clause_views_add(a: Seq<Clause>, b: Seq<Clause>)
    ensures
        all_clause_views(a + b) == all_clause_views(a) + all_clause_views(b),
{
    lemma_clause_views_index(a, a.len() as int);
    lemma_clause_views_index(b, b.len() as int);
    lemma_clause_views_index(a + b, (a + b).len() as int);
    assert(all_clause_views(a + b) =~= all_clause_views(a) + all_clause_views(b));
}

proof fn lemma_single_clause_views(c: Clause)
    ensures
        all_clause_views(seq![c]) == seq![clause_view(c)],
{
    lemma_clause_views_index(seq![c], 1);
    assert(all_clause_views(seq![c]) =~= seq![clause_view(c)]);
}

/// The alternatives of a native policy, taking it apart: its choices and
/// the children of a one-of threshold split recursively; anything else is
/// one alternative.
#[verifier::loop_isolation(false)]
pub fn optimizer_flatten_policy(p: Clause) -> (r: Vec<Clause>)
    ensures
        all_clause_views(r@) == flatten_spec(clause_view(p)),
    decreases p,
{
    let ghost p0 = p;
    match p {
        Clause::Or(v) => {
            let ghost vv = v;
            let ghost orig = v@;
            proof {
                lemma_choice_views_index(orig, orig.len() as int);
            }
            assert(orig.len() == v.len());
            let mut rest = v;
            let mut out: Vec<Clause> = Vec::new();
            let mut k: usize = 0;
            while rest.len() > 0
                invariant
                    k <= orig.len(),
                    orig.len() <= usize::MAX,
                    rest@ == orig.skip(k as int),
                    p0 == Clause::Or(vv),
                    orig == vv@,
                    choice_views(orig, orig.len() as int).len() == orig.len(),
                    forall|j: int|
                        0 <= j < orig.len() ==> #[trigger] choice_views(orig, orig.len() as int)[j]
                            == (orig[j].0, clause_view(orig[j].1)),
                    all_clause_views(out@) == flatten_choices(
                        choice_views(orig, orig.len() as int),
                        k as int,
                    ),
                decreases rest@.len(),
            {
                assert(rest@.len() == orig.len() - k);
                let (_, child) = rest.remove(0);
                assert(child == orig[k as int].1);
                proof {
                    lemma_alternative_decreases(p0, k as int);
                }
                let mut more = optimizer_flatten_policy(child);
                proof {
                    lemma_all_clause_views_add(out@, more@);
                }
                out.append(&mut more);
                assert(rest@ =~= orig.skip(k + 1));
                k += 1;
            }
            out
        },
        Clause::Threshold(n, v) => {
            if n == 1 {
                let ghost vv = v;
                let ghost orig = v@;
                proof {
                    lemma_clause_views_index(orig, orig.len() as int);
                }
                assert(orig.len() == v.len());
                let mut rest = v;
                let mut out: Vec<Clause> = Vec::new();
                let mut k: usize = 0;
                while rest.len() > 0
                    invariant
                        k <= orig.len(),
                        orig.len() <= usize::MAX,
                        rest@ == orig.skip(k as int),
                        p0 == Clause::Threshold(1, vv),
                        orig == vv@,
                        clause_views(orig, orig.len() as int).len() == orig.len(),
                        forall|j: int|
                            0 <= j < orig.len() ==> #[trigger] clause_views(orig, orig.len() as int)[j]
                                == clause_view(orig[j]),
                        all_clause_views(out@) == flatten_children(
                            clause_views(orig, orig.len() as int),
                            k as int,
                        ),
                    decreases rest@.len(),
                {
                    assert(rest@.len() == orig.len() - k);
                    let child = rest.remove(0);
                    assert(child == orig[k as int]);
                    proof {
                        lemma_threshold_decreases(p0, k as int);
                    }
                    let mut more = optimizer_flatten_policy(child);
                    proof {
                        lemma_all_clause_views_add(out@, more@);
                    }
                    out.append(&mut more);
                    assert(rest@ =~= orig.skip(k + 1));
                    k += 1;
                }
                out
            } else {
                let whole = Clause::Threshold(n, v);
                let mut out: Vec<Clause> = Vec::new();
                out.push(whole);
                proof {
                    lemma_single_clause_views(whole);
                }
                assert(out@ =~= seq![whole]);
                out
            }
        },
        _ => {
            let mut out: Vec<Clause> = Vec::new();
            out.push(p);
            proof {
                lemma_single_clause_views(p0);
            }
            assert(out@ =~= seq![p0]);
            out
        },
    }
}

/// The alternatives of a source policy: those of a native policy, each
/// native; those of each choice, in order; anything else is one.
pub open spec fn source_alternatives_spec(p: PolicyView) -> Seq<PolicyView>
    decreases p, 0int,
{
    match p {
        PolicyView::Miniscript(c) => flatten_spec(c).map_values(|x: ClauseView| PolicyView::Miniscript(x)),
        PolicyView::Or(v) => alternatives_fold(v, v.len() as int),
        _ => seq![p],
    }
}

/// The alternatives of the first `k` choices, in order.
pub open spec fn alternatives_fold(s: Seq<PolicyView>, k: int) -> Seq<PolicyView>
    decreases s, k,
{
    if k <= 0 || k > s.len() {
        Seq::empty()
    } else {
        alternatives_fold(s, k - 1) + source_alternatives_spec(s[k - 1])
    }
}

proof fn lemma_all_policy_views_add(a: Seq<ScriptPolicy>, b: Seq<ScriptPolicy>)
    ensures
        all_policy_views(a + b) == all_policy_views(a) + all_policy_views(b),
{
    lemma_policy_views_index(a, a.len() as int);
    lemma_policy_views_index(b, b.len() as int);
    lemma_policy_views_index(a + b, (a + b).len() as int);
    assert(all_policy_views(a + b) =~= all_policy_views(a) + all_policy_views(b));
}

/// The alternatives of a source policy, taking it apart: a native policy's
/// split alternatives, each native; each choice's alternatives, in order;
/// anything else is one alternative.
#[verifier::loop_isolation(false)]
pub fn source_alternatives(policy: ScriptPolicy) -> (r: Vec<ScriptPolicy>)
    ensures
        all_policy_views(r@) == source_alternatives_spec(policy_view(policy)),
    decreases policy,
{
    let ghost p0 = policy;
    match policy {
        ScriptPolicy::Miniscript(c) => {
            let flat = optimizer_flatten_policy(c);
            let ghost fv = flat@;
            proof {
                lemma_clause_views_index(fv, fv.len() as int);
            }
            assert(fv.len() == flat.len());
            let ghost target = flatten_spec(clause_view(c)).map_values(
                |x: ClauseView| PolicyView::Miniscript(x),
            );
            let mut rest = flat;
            let mut out: Vec<ScriptPolicy> = Vec::new();
            let mut k: usize = 0;
            while rest.len() > 0
                invariant
                    k <= fv.len(),
                    rest@ == fv.skip(k as int),
                    all_policy_views(out@) == target.take(k as int),
                decreases rest@.len(),
            {
                assert(rest@.len() == fv.len() - k);
                let x = rest.remove(0);
                assert(x == fv[k as int]);
                let wrapped = ScriptPolicy::Miniscript(x);
                proof {
                    lemma_policy_views_push(out@, wrapped);
                    assert(all_clause_views(fv)[k as int] == clause_view(x));
                    assert(target.take(k + 1) =~= target.take(k as int).push(policy_view(wrapped)));
                }
                out.push(wrapped);
                assert(rest@ =~= fv.skip(k + 1));
                k += 1;
            }
            assert(target.take(k as int) =~= target);
            out
        },
        ScriptPolicy::Or(v) => {
            let ghost vv = v;
            let ghost orig = v@;
            proof {
                lemma_policy_views_index(orig, orig.len() as int);
            }
            assert(orig.len() == v.len());
            let mut rest = v;
            let mut out: Vec<ScriptPolicy> = Vec::new();
            let mut k: usize = 0;
            while rest.len() > 0
                invariant
                    k <= orig.len(),
                    rest@ == orig.skip(k as int),
                    all_policy_views(out@) == alternatives_fold(all_policy_views(orig), k as int),
                decreases rest@.len(),
            {
                assert(rest@.len() == orig.len() - k);
                let child = rest.remove(0);
                assert(child == orig[k as int]);
                proof {
                    lemma_policy_child_decreases(p0, k as int);
                }
                let mut more = source_alternatives(child);
                proof {
                    lemma_all_policy_views_add(out@, more@);
                }
                out.append(&mut more);
                assert(rest@ =~= orig.skip(k + 1));
                k += 1;
            }
            out
        },
        other => {
            let mut out: Vec<ScriptPolicy> = Vec::new();
            out.push(other);
            proof {
                lemma_policy_views_index(out@, 1);
                assert(all_policy_views(out@) =~= seq![policy_view(p0)]);
            }
            out
        },
    }
}

/// A source policy that is its own only alternative.
pub open spec fn atomic(p: PolicyView) -> bool {
    source_alternatives_spec(p) == seq![p]
}

proof fn lemma_alternatives_fold_atomic(s: Seq<PolicyView>, k: int)
    requires
        0 <= k <= s.len(),
        forall|i: int| 0 <= i < s.len() ==> atomic(#[trigger] s[i]),
    ensures
        alternatives_fold(s, k) == s.take(k),
    decreases k,
{
    if k > 0 {
        lemma_alternatives_fold_atomic(s, k - 1);
        assert(atomic(s[k - 1]));
        assert(s.take(k) =~= s.take(k - 1) + seq![s[k - 1]]);
    } else {
        assert(s.take(0) =~= Seq::<PolicyView>::empty());
    }
}

proof fn lemma_flatten_children_atomic(s: Seq<PolicyView>, k: int)
    requires
        0 <= k <= s.len(),
        all_native(s),
        forall|i: int| 0 <= i < s.len() ==> atomic(#[trigger] s[i]),
    ensures
        flatten_children(natives(s), k) == natives(s).take(k),
    decreases k,
{
    let ns = natives(s);
    if k > 0 {
        lemma_flatten_children_atomic(s, k - 1);
        let n = ns[k - 1];
        assert(s[k - 1] is Miniscript);
        assert(atomic(s[k - 1]));
        assert(s[k - 1] == PolicyView::Miniscript(n));
        let f = flatten_spec(n);
        let m = f.map_values(|x: ClauseView| PolicyView::Miniscript(x));
        assert(m == seq![s[k - 1]]);
        assert(m.len() == 1);
        assert(m[0] == PolicyView::Miniscript(f[0]));
        assert(f =~= seq![n]);
        assert(ns.take(k) =~= ns.take(k - 1) + seq![n]);
    } else {
        assert(ns.take(0) =~= Seq::<ClauseView>::empty());
    }
}

/// Splitting a choice among policies that are each their own only
/// alternative gives back those policies, in order.
pub proof fn lemma_disjoin_then_split(s: Seq<PolicyView>)
    requires
        s.len() >= 1,
        forall|i: int| 0 <= i < s.len() ==> atomic(#[trigger] s[i]),
    ensures
        source_alternatives_spec(disjoin_source_spec(s)) == s,
{
    if s.len() == 1 {
        assert(atomic(s[0]));
        assert(seq![s[0]] =~= s);
    } else if all_native(s) {
        let ns = natives(s);
        lemma_flatten_children_atomic(s, s.len() as int);
        assert(ns.take(s.len() as int) =~= ns);
        let t = ClauseView::Threshold(1, ns);
        assert(flatten_spec(t) == ns);
        assert(ns.map_values(|x: ClauseView| PolicyView::Miniscript(x)) =~= s) by {
            assert forall|i: int| 0 <= i < s.len() implies ns.map_values(
                |x: ClauseView| PolicyView::Miniscript(x),
            )[i] == s[i] by {
                assert(s[i] is Miniscript);
            }
        }
    } else {
        lemma_alternatives_fold_atomic(s, s.len() as int);
        assert(s.take(s.len() as int) =~= s);
    }
}

} // verus!
