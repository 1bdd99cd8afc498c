// `match` on an enum: what each arm selects, checked for coverage, and the
// two slices a lowered `match` reads -- the tag it switches on and the payload
// an arm binds.
//
// The analysis is purely syntactic plus a look at the enum's declaration: no
// environment, no lowering. That is what lets the same plan serve both
// readings of a `match` -- the combinational one, which folds the arms into a
// `case` over values, and the scheduled one, where the arms are states and the
// `case` is over the next state.

use vstd::prelude::*;
use crate::diag::{Span, DiagSink, Severity, saids, error_with_note, error_at};
use crate::ir::{Op, ValueId, vid_ok};
use crate::ir_graph::Report;
use crate::lowerer::{Lowerer, def_is, named, grows, emitted, emit_result, lemma_emitted, is_signal};
use crate::text::{dec, push_decimal, push_decimal_wide};
use crate::ty::{Ty, ty_text, width, two_to};

verus! {

/// A name as the source spells it, and where.
#[derive(Debug)]
pub struct Named {
    pub text: String,
    pub span: Span,
}

impl Clone for Named {
    fn clone(&self) -> (r: Self)
        ensures
            r == *self,
    {
        Named { text: self.text.clone(), span: self.span }
    }
}

/// One pattern of a `match` arm.
#[derive(Debug)]
pub enum BindingPattern {
    /// `_` or a plain name: matches anything, and binds the whole scrutinee.
    Alphanum(Named),
    /// `Variant`, or `Variant(x)` binding its payload.
    EnumCase { base: Named, subbinding: Option<Named> },
    /// `A | B`: several alternatives for one scrutinee position.
    AnyOf(Vec<BindingPattern>),
}

/// One arm: its patterns, and whether its value is `@unreachable`.
#[derive(Debug)]
pub struct MatchCase {
    pub binding_patterns: Vec<BindingPattern>,
    pub rhs_is_unreachable: bool,
}

/// What planning a `match` reads of it: how many scrutinees it has, and its
/// arms in order.
#[derive(Debug)]
pub struct MatchStmt {
    pub scrutinees: usize,
    pub cases: Vec<MatchCase>,
}

/// An enum as its declaration gives it: the variants with their
/// discriminants, in order, each with the type of its payload if it carries
/// one, and how the tag and the payload share the value's bits.
#[derive(Debug)]
pub struct EnumDef {
    pub variants: Vec<(String, u128)>,
    pub payloads: Vec<Option<Ty>>,
    pub tag_width: u32,
    pub payload_width: u32,
}

/// What one arm of a `match` selects on, and what it binds.
#[derive(Debug)]
pub struct CasePlan {
    /// The discriminants that select this arm. Empty for a catch-all.
    pub labels: Vec<u128>,
    /// `_` or a plain name: binds the whole scrutinee.
    pub catch_all: Option<Named>,
    /// `Read(a)` -- the variant, and the name its payload takes.
    pub payload: Option<(Named, Named)>,
    /// `_ => @unreachable`: selects nothing and supplies nothing.
    pub is_unreachable: bool,
}

/// Every arm of a `match`, checked for coverage.
#[derive(Debug)]
pub struct MatchShape {
    pub enum_name: String,
    pub tag_width: u32,
    pub payload_width: u32,
    pub total_width: u32,
    /// One per case of the source `match`, in order.
    pub cases: Vec<CasePlan>,
    /// Where to blame the `match` as a whole.
    pub span: Span,
}

pub type NameView = (Seq<char>, Span);

pub type PlanView = (Seq<u128>, Option<NameView>, Option<(NameView, NameView)>, bool);

pub open spec fn nv(n: Named) -> NameView {
    (n.text@, n.span)
}

pub open spec fn opt_nv(n: Option<Named>) -> Option<NameView> {
    match n {
        Some(x) => Some(nv(x)),
        None => None,
    }
}

pub open spec fn plan_view(p: CasePlan) -> PlanView {
    (p.labels@, opt_nv(p.catch_all), match p.payload {
        Some((a, b)) => Some((nv(a), nv(b))),
        None => None,
    }, p.is_unreachable)
}

pub open spec fn plans_view(ps: Seq<CasePlan>) -> Seq<PlanView> {
    ps.map_values(|p: CasePlan| plan_view(p))
}

/// Or-patterns do not nest: an alternative is a name or a variant.
pub open spec fn flat(p: BindingPattern) -> bool {
    match p {
        BindingPattern::AnyOf(alts) => forall|k: int| 0 <= k < alts@.len() ==> !(#[trigger] alts@[k] is AnyOf),
        _ => true,
    }
}

pub open spec fn stmt_flat(s: MatchStmt) -> bool {
    forall|i: int, j: int|
        0 <= i < s.cases@.len() && 0 <= j < s.cases@[i].binding_patterns@.len() ==> flat(
            #[trigger] s.cases@[i].binding_patterns@[j],
        )
}

/// Where the first named variant among `alts` is.
pub open spec fn first_variant_in(alts: Seq<BindingPattern>) -> Option<Span>
    decreases alts.len(),
{
    if alts.len() == 0 {
        None
    } else {
        match alts[0] {
            BindingPattern::EnumCase { base, .. } => Some(base.span),
            _ => first_variant_in(alts.drop_first()),
        }
    }
}

/// Where the first named variant in a pattern is, if it names one.
pub open spec fn first_variant(p: BindingPattern) -> Option<Span> {
    match p {
        BindingPattern::EnumCase { base, .. } => Some(base.span),
        BindingPattern::AnyOf(alts) => first_variant_in(alts@),
        BindingPattern::Alphanum(_) => None,
    }
}

/// Where to blame a `match` as a whole: the first variant named by the
/// first pattern of the earliest arm that names one, since the `match`
/// itself carries no span; else `here`.
pub open spec fn match_span_of(cases: Seq<MatchCase>, here: Span) -> Span
    decreases cases.len(),
{
    if cases.len() == 0 {
        here
    } else {
        let first = if cases[0].binding_patterns@.len() > 0 {
            first_variant(cases[0].binding_patterns@[0])
        } else {
            None
        };
        match first {
            Some(s) => s,
            None => match_span_of(cases.drop_first(), here),
        }
    }
}

/// The alternatives a pattern offers: an or-pattern's, or the pattern alone.
pub open spec fn alts_of(p: BindingPattern) -> Seq<BindingPattern> {
    match p {
        BindingPattern::AnyOf(alts) => alts@,
        other => seq![other],
    }
}

/// The last catch-all binding among `alts`.
pub open spec fn catch_of(alts: Seq<BindingPattern>) -> Option<Named>
    decreases alts.len(),
{
    if alts.len() == 0 {
        None
    } else {
        match alts.last() {
            BindingPattern::Alphanum(n) => Some(n),
            _ => catch_of(alts.drop_last()),
        }
    }
}

/// The variants `alts` names, in order.
pub open spec fn named_of(alts: Seq<BindingPattern>) -> Seq<Named>
    decreases alts.len(),
{
    if alts.len() == 0 {
        Seq::empty()
    } else {
        let prev = named_of(alts.drop_last());
        match alts.last() {
            BindingPattern::EnumCase { base, .. } => prev.push(base),
            _ => prev,
        }
    }
}

/// The last variant among `alts` that binds its payload, with the binding.
pub open spec fn bind_of(alts: Seq<BindingPattern>) -> Option<(Named, Named)>
    decreases alts.len(),
{
    if alts.len() == 0 {
        None
    } else {
        match alts.last() {
            BindingPattern::EnumCase { base, subbinding: Some(b) } => Some((base, b)),
            _ => bind_of(alts.drop_last()),
        }
    }
}

/// The index of the first of `ns` that is `n`, or -1.
pub open spec fn first_ix(ns: Seq<Seq<char>>, n: Seq<char>) -> int
    decreases ns.len(),
{
    if ns.len() == 0 {
        -1
    } else {
        let r = first_ix(ns.drop_last(), n);
        if r >= 0 {
            r
        } else if ns.last() == n {
            ns.len() - 1
        } else {
            -1
        }
    }
}

pub open spec fn variant_names(vs: Seq<(String, u128)>) -> Seq<Seq<char>> {
    vs.map_values(|v: (String, u128)| v.0@)
}

/// Names joined by commas.
pub open spec fn comma_list(ns: Seq<Seq<char>>) -> Seq<char>
    decreases ns.len(),
{
    if ns.len() == 0 {
        Seq::empty()
    } else {
        comma_list(ns.drop_last()) + (if ns.len() > 1 { ", "@ } else { Seq::empty() }) + ns.last()
    }
}

/// The labels of an arm's named variants, in order, with the variants it
/// covers added to `covered`; or the first variant that is not one of the
/// enum's, or that an earlier label already covers.
pub open spec fn labels_spec(named: Seq<Named>, covered: Seq<Seq<char>>, vs: Seq<(String, u128)>, enum_name: Seq<char>) -> Result<(Seq<Seq<char>>, Seq<u128>), Report>
    decreases named.len(),
{
    if named.len() == 0 {
        Ok((covered, Seq::empty()))
    } else {
        match labels_spec(named.drop_last(), covered, vs, enum_name) {
            Err(e) => Err(e),
            Ok((cov, ls)) => {
                let b = named.last();
                let v = b.text@;
                let ns = variant_names(vs);
                if !ns.contains(v) {
                    Err(error_with_note(b.span, "`"@ + v + "` is not a variant of `"@ + enum_name + "`"@,
                        "expected one of: "@ + comma_list(ns)))
                } else if cov.contains(v) {
                    Err(error_at(b.span, "`"@ + v + "` is matched twice"@))
                } else {
                    Ok((cov.push(v), ls.push(vs[first_ix(ns, v)].1)))
                }
            },
        }
    }
}

/// The payload type a variant carries, if it is one of the enum's and
/// carries one.
pub open spec fn payload_of(d: EnumDef, v: Seq<char>) -> Option<Ty> {
    let ix = first_ix(variant_names(d.variants@), v);
    if ix >= 0 {
        d.payloads@[ix]
    } else {
        None
    }
}

/// What the arms seen so far decided: the variants covered, whether an arm
/// matched everything by value or declared the rest impossible, and each
/// arm's plan.
pub type Scan = (Seq<Seq<char>>, bool, bool, Seq<PlanView>);

/// One arm, after the arms in `st`.
pub open spec fn arm_spec(d: EnumDef, enum_name: Seq<char>, match_span: Span, here: Span, st: Scan, case: MatchCase) -> Result<Scan, Report> {
    let (covered, saw_catch_all, saw_unreachable, plans) = st;
    let pats = case.binding_patterns@;
    if pats.len() != 1 {
        Err(error_at(here, "this arm has the wrong number of patterns for one scrutinee"@))
    } else if saw_catch_all || saw_unreachable {
        Err(error_at(match_span, "this arm is unreachable: an earlier arm already matches everything"@))
    } else if case.rhs_is_unreachable {
        if !(pats[0] is Alphanum) {
            Err(error_at(match_span, "`@unreachable` belongs on a `_` arm, not on a named variant"@))
        } else {
            Ok((covered, saw_catch_all, true, plans.push((Seq::empty(), None, None, true))))
        }
    } else {
        let alts = alts_of(pats[0]);
        let catch = catch_of(alts);
        let named = named_of(alts);
        if catch is Some && named.len() > 0 {
            Err(error_at(match_span, "an alternative cannot mix a catch-all binding with named variants"@))
        } else {
            let labelled: Result<(Seq<Seq<char>>, Seq<u128>), Report> = if catch is Some {
                Ok((covered, Seq::empty()))
            } else {
                labels_spec(named, covered, d.variants@, enum_name)
            };
            match labelled {
                Err(e) => Err(e),
                Ok((cov, labels)) => match bind_of(alts) {
                    Some((v, b)) => if named.len() != 1 {
                        Err(error_at(b.span, "an alternative with several variants cannot bind a payload"@))
                    } else if payload_of(d, v.text@) is None {
                        Err(error_with_note(v.span, "`"@ + v.text@ + "` carries no payload to bind"@,
                            "match it as `"@ + v.text@ + " =>`"@))
                    } else {
                        Ok((cov, saw_catch_all, saw_unreachable, plans.push((labels, None, Some((nv(v), nv(b))), false))))
                    },
                    None => Ok((cov, saw_catch_all || catch is Some, saw_unreachable, plans.push(
                        (labels, opt_nv(catch), None, false)))),
                },
            }
        }
    }
}

/// The first `k` arms, in order.
pub open spec fn arms_spec(d: EnumDef, enum_name: Seq<char>, match_span: Span, here: Span, cases: Seq<MatchCase>) -> Result<Scan, Report>
    decreases cases.len(),
{
    if cases.len() == 0 {
        Ok((Seq::empty(), false, false, Seq::empty()))
    } else {
        match arms_spec(d, enum_name, match_span, here, cases.drop_last()) {
            Err(e) => Err(e),
            Ok(st) => arm_spec(d, enum_name, match_span, here, st, cases.last()),
        }
    }
}

/// The variants `covered` leaves out, in declaration order.
pub open spec fn missing(ns: Seq<Seq<char>>, covered: Seq<Seq<char>>) -> Seq<Seq<char>>
    decreases ns.len(),
{
    if ns.len() == 0 {
        Seq::empty()
    } else {
        missing(ns.drop_last(), covered) + (if covered.contains(ns.last()) { Seq::empty() } else { seq![ns.last()] })
    }
}

/// How many bit patterns a tag of `w` bits has, saturating at the largest
/// `u128`.
pub open spec fn pattern_count(w: u32) -> nat {
    if w >= 127 {
        u128::MAX as nat
    } else {
        two_to(w as nat)
    }
}

/// The enum's declaration is usable: a payload entry per variant, and no
/// more variants than its tag can tell apart.
pub open spec fn def_wf(d: EnumDef) -> bool {
    d.payloads@.len() == d.variants@.len() && d.variants@.len() <= pattern_count(d.tag_width)
}

pub type ShapeView = (Seq<char>, u32, u32, u32, Seq<PlanView>, Span);

pub open spec fn shape_view(s: MatchShape) -> ShapeView {
    (s.enum_name@, s.tag_width, s.payload_width, s.total_width, plans_view(s.cases@), s.span)
}

/// What planning a `match` decides: its shape, or the one error that stops
/// it; `None` for a scrutinee whose enum has no declaration, which was
/// reported where the type was named.
pub open spec fn plan_spec(stmt: MatchStmt, ty: Ty, def: Option<EnumDef>, here: Span) -> Option<Result<ShapeView, Report>> {
    if stmt.scrutinees != 1 {
        Some(Err(error_at(here, "`match` takes one scrutinee here, found "@ + dec(stmt.scrutinees as nat))))
    } else if !(ty is Enum) {
        Some(Err(error_with_note(here, "`match` needs an enum, found `"@ + ty_text(ty) + "`"@,
            "compare with `==` instead, or give the value an enum type"@)))
    } else if def is None {
        None
    } else {
        let d = def->0;
        let enum_name = ty->Enum_name@;
        let total = ty->Enum_width;
        let span = match_span_of(stmt.cases@, here);
        match arms_spec(d, enum_name, span, here, stmt.cases@) {
            Err(e) => Some(Err(e)),
            Ok((covered, saw_catch_all, saw_unreachable, plans)) => {
                let ns = variant_names(d.variants@);
                let count = pattern_count(d.tag_width);
                if !(exists|k: int| 0 <= k < plans.len() && !(#[trigger] plans[k]).3) {
                    Some(Err(error_at(here, "`match` needs at least one arm"@)))
                } else if !saw_catch_all && covered.len() != ns.len() {
                    Some(Err(error_with_note(span, "`match` does not cover "@ + comma_list(missing(ns, covered)),
                        "add the missing arms or a `_` catch-all; a partial match would be a latch"@)))
                } else if !(saw_catch_all || saw_unreachable) && ns.len() != count {
                    Some(Err(error_with_note(span, "`match` covers every variant of `"@ + enum_name + "`, but its "@
                        + dec(d.tag_width as nat) + "-bit tag has "@ + dec((count - ns.len()) as nat)
                        + " pattern(s) that name no variant"@,
                        "add `_ =>` with a value, or `_ => @unreachable` if those patterns cannot occur; without one the last arm becomes the fallback, and reordering the arms would change the result"@)))
                } else {
                    Some(Ok((enum_name, d.tag_width, d.payload_width, total, plans, span)))
                }
            },
        }
    }
}

fn first_variant_exec(p: &BindingPattern) -> (r: Option<Span>)
    ensures
        r == first_variant(*p),
{
    match p {
        BindingPattern::EnumCase { base, .. } => Some(base.span),
        BindingPattern::Alphanum(_) => None,
        BindingPattern::AnyOf(alts) => {
            let ghost all = alts@;
            proof {
                assert(all.subrange(0, all.len() as int) =~= all);
                assert(first_variant(*p) == first_variant_in(all));
            }
            let mut k: usize = 0;
            while k < alts.len()
                invariant
                    k <= alts@.len(),
                    all == alts@,
                    first_variant(*p) == first_variant_in(all),
                    first_variant_in(all) == first_variant_in(all.subrange(k as int, all.len() as int)),
                decreases alts@.len() - k,
            {
                proof {
                    assert(all.subrange(k as int, all.len() as int).drop_first() =~= all.subrange(k + 1, all.len() as int));
                    assert(all.subrange(k as int, all.len() as int)[0] == all[k as int]);
                }
                match &alts[k] {
                    BindingPattern::EnumCase { base, .. } => {
                        proof {
                            let sub = all.subrange(k as int, all.len() as int);
                            assert(sub.len() > 0);
                            assert(first_variant_in(sub) == Some(base.span));
                        }
                        return Some(base.span);
                    },
                    _ => {},
                }
                k = k + 1;
            }
            None
        },
    }
}

/// Where to blame a `match` as a whole; see `match_span_of`.
fn find_match_span(cases: &Vec<MatchCase>, here: Span) -> (r: Span)
    ensures
        r == match_span_of(cases@, here),
{
    let ghost all = cases@;
    proof {
        assert(all.subrange(0, all.len() as int) =~= all);
    }
    let mut i: usize = 0;
    while i < cases.len()
        invariant
            i <= cases@.len(),
            all == cases@,
            match_span_of(all, here) == match_span_of(all.subrange(i as int, all.len() as int), here),
        decreases cases@.len() - i,
    {
        proof {
            assert(all.subrange(i as int, all.len() as int).drop_first() =~= all.subrange(i + 1, all.len() as int));
            assert(all.subrange(i as int, all.len() as int)[0] == all[i as int]);
        }
        if cases[i].binding_patterns.len() > 0 {
            if let Some(s) = first_variant_exec(&cases[i].binding_patterns[0]) {
                return s;
            }
        }
        i = i + 1;
    }
    here
}

/// The catch-all, the named variants and the payload binding among the
/// alternatives a pattern offers.
fn summarize(p: &BindingPattern) -> (r: (Option<Named>, Vec<Named>, Option<(Named, Named)>))
    requires
        flat(*p),
    ensures
        r.0 == catch_of(alts_of(*p)),
        r.1@ == named_of(alts_of(*p)),
        r.2 == bind_of(alts_of(*p)),
{
    let mut catch: Option<Named> = None;
    let mut named: Vec<Named> = Vec::new();
    let mut bind: Option<(Named, Named)> = None;
    match p {
        BindingPattern::AnyOf(alts) => {
            let ghost all = alts@;
            let mut k: usize = 0;
            while k < alts.len()
                invariant
                    k <= alts@.len(),
                    all == alts@,
                    catch == catch_of(all.take(k as int)),
                    named@ == named_of(all.take(k as int)),
                    bind == bind_of(all.take(k as int)),
                decreases alts@.len() - k,
            {
                proof {
                    assert(all.take(k + 1).drop_last() =~= all.take(k as int));
                }
                match &alts[k] {
                    BindingPattern::EnumCase { base, subbinding } => {
                        named.push(base.clone());
                        if let Some(b) = subbinding {
                            bind = Some((base.clone(), b.clone()));
                        }
                    },
                    BindingPattern::Alphanum(n) => {
                        catch = Some(n.clone());
                    },
                    BindingPattern::AnyOf(_) => {},
                }
                k = k + 1;
            }
            proof {
                assert(all.take(k as int) =~= all);
            }
        },
        BindingPattern::EnumCase { base, subbinding } => {
            named.push(base.clone());
            if let Some(b) = subbinding {
                bind = Some((base.clone(), b.clone()));
            }
            proof {
                let alts = alts_of(*p);
                assert(alts =~= seq![*p]);
                assert(alts.drop_last() =~= Seq::<BindingPattern>::empty());
                assert(alts.last() == *p);
                assert(catch_of(alts) == catch_of(alts.drop_last()));
                assert(named_of(alts.drop_last()) =~= Seq::<Named>::empty());
                assert(named_of(alts) == named_of(alts.drop_last()).push(*base));
                assert(bind_of(alts.drop_last()) == None::<(Named, Named)>);
            }
        },
        BindingPattern::Alphanum(n) => {
            catch = Some(n.clone());
            proof {
                let alts = alts_of(*p);
                assert(alts =~= seq![*p]);
                assert(alts.drop_last() =~= Seq::<BindingPattern>::empty());
                assert(alts.last() == *p);
                assert(named_of(alts) == named_of(alts.drop_last()));
                assert(bind_of(alts) == bind_of(alts.drop_last()));
            }
        },
    }
    (catch, named, bind)
}

proof fn lemma_first_ix(ns: Seq<Seq<char>>, n: Seq<char>)
    ensures
        -1 <= first_ix(ns, n) < ns.len(),
        first_ix(ns, n) >= 0 <==> ns.contains(n),
        first_ix(ns, n) >= 0 ==> ns[first_ix(ns, n)] == n,
    decreases ns.len(),
{
    if ns.len() > 0 {
        lemma_first_ix(ns.drop_last(), n);
        if ns.contains(n) && first_ix(ns.drop_last(), n) < 0 {
            let j = choose|j: int| 0 <= j < ns.len() && ns[j] == n;
            if j < ns.len() - 1 {
                assert(ns.drop_last()[j] == n);
            }
        }
        if first_ix(ns.drop_last(), n) >= 0 {
            assert(ns.drop_last()[first_ix(ns.drop_last(), n)] == ns[first_ix(ns.drop_last(), n)]);
        }
    }
}

/// The first variant named `v`.
fn variant_ix(vs: &Vec<(String, u128)>, v: &String) -> (r: Option<usize>)
    ensures
        match r {
            Some(i) => i as int == first_ix(variant_names(vs@), v@),
            None => first_ix(variant_names(vs@), v@) == -1,
        },
{
    let ghost ns = variant_names(vs@);
    let mut i: usize = 0;
    while i < vs.len()
        invariant
            i <= vs@.len(),
            ns == variant_names(vs@),
            first_ix(ns.take(i as int), v@) == -1,
        decreases vs@.len() - i,
    {
        proof {
            assert(ns.take(i + 1).drop_last() =~= ns.take(i as int));
        }
        if vs[i].0 == *v {
            proof {
                lemma_first_ix_prefix(ns, v@, i + 1);
            }
            return Some(i);
        }
        i = i + 1;
    }
    proof {
        assert(ns.take(i as int) =~= ns);
    }
    None
}

/// A first occurrence found in a prefix is the first occurrence.
proof fn lemma_first_ix_prefix(ns: Seq<Seq<char>>, n: Seq<char>, k: int)
    requires
        0 <= k <= ns.len(),
        first_ix(ns.take(k), n) >= 0,
    ensures
        first_ix(ns, n) == first_ix(ns.take(k), n),
    decreases ns.len() - k,
{
    if k < ns.len() {
        assert(ns.take(k + 1).drop_last() =~= ns.take(k));
        lemma_first_ix_prefix(ns, n, k + 1);
    } else {
        assert(ns.take(k) =~= ns);
    }
}

fn contains_text(v: &Vec<String>, x: &String) -> (r: bool)
    ensures
        r == crate::ir_export::names(v@).contains(x@),
{
    let mut k: usize = 0;
    while k < v.len()
        invariant
            k <= v@.len(),
            forall|j: int| 0 <= j < k ==> v@[j]@ != x@,
        decreases v@.len() - k,
    {
        if v[k] == *x {
            proof {
                assert(crate::ir_export::names(v@)[k as int] == x@);
            }
            return true;
        }
        k = k + 1;
    }
    proof {
        if crate::ir_export::names(v@).contains(x@) {
            let j = choose|j: int| 0 <= j < v@.len() && crate::ir_export::names(v@)[j] == x@;
            assert(v@[j]@ == x@);
        }
    }
    false
}

/// The variants' names joined by commas.
fn variant_list(vs: &Vec<(String, u128)>) -> (s: String)
    ensures
        s@ == comma_list(variant_names(vs@)),
{
    let ghost ns = variant_names(vs@);
    let mut s = String::new();
    let mut i: usize = 0;
    while i < vs.len()
        invariant
            i <= vs@.len(),
            ns == variant_names(vs@),
            s@ == comma_list(ns.take(i as int)),
        decreases vs@.len() - i,
    {
        proof {
            assert(ns.take(i + 1).drop_last() =~= ns.take(i as int));
        }
        if i > 0 {
            s.append(", ");
        }
        s.append(vs[i].0.as_str());
        i = i + 1;
    }
    proof {
        assert(ns.take(i as int) =~= ns);
    }
    s
}

/// An error among the first `k` named variants is the error.
proof fn lemma_labels_err(named: Seq<Named>, covered: Seq<Seq<char>>, vs: Seq<(String, u128)>, enum_name: Seq<char>, k: int)
    requires
        0 <= k <= named.len(),
        labels_spec(named.take(k), covered, vs, enum_name) is Err,
    ensures
        labels_spec(named, covered, vs, enum_name) == labels_spec(named.take(k), covered, vs, enum_name),
    decreases named.len() - k,
{
    if k < named.len() {
        assert(named.take(k + 1).drop_last() =~= named.take(k));
        lemma_labels_err(named, covered, vs, enum_name, k + 1);
    } else {
        assert(named.take(k) =~= named);
    }
}

/// An error among the first `k` arms is the error.
proof fn lemma_arms_err(d: EnumDef, enum_name: Seq<char>, match_span: Span, here: Span, cases: Seq<MatchCase>, k: int)
    requires
        0 <= k <= cases.len(),
        arms_spec(d, enum_name, match_span, here, cases.take(k)) is Err,
    ensures
        arms_spec(d, enum_name, match_span, here, cases) == arms_spec(d, enum_name, match_span, here, cases.take(k)),
    decreases cases.len() - k,
{
    if k < cases.len() {
        assert(cases.take(k + 1).drop_last() =~= cases.take(k));
        lemma_arms_err(d, enum_name, match_span, here, cases, k + 1);
    } else {
        assert(cases.take(k) =~= cases);
    }
}

fn report_at(sink: &mut DiagSink, at: Span, msg: String)
    ensures
        *final(sink).map == *old(sink).map,
        saids(final(sink).diags@) == saids(old(sink).diags@).push(error_at(at, msg@)),
{
    let ghost before = sink.diags@;
    sink.err_span(at, msg);
    proof {
        assert(sink.diags@ =~= before.push(sink.diags@.last()));
        assert(saids(sink.diags@) =~= saids(before).push(error_at(at, msg@)));
    }
}

/// The labels of an arm's named variants; see `labels_spec`.
fn labels(named: &Vec<Named>, covered: &mut Vec<String>, d: &EnumDef, enum_name: &String, sink: &mut DiagSink) -> (r: Option<Vec<u128>>)
    ensures
        *final(sink).map == *old(sink).map,
        match labels_spec(named@, crate::ir_export::names(old(covered)@), d.variants@, enum_name@) {
            Err(e) => r is None && saids(final(sink).diags@) == saids(old(sink).diags@).push(e),
            Ok((cov, ls)) => {
                &&& r is Some
                &&& r->0@ == ls
                &&& crate::ir_export::names(final(covered)@) == cov
                &&& saids(final(sink).diags@) == saids(old(sink).diags@)
            },
        },
{
    let ghost cov0 = crate::ir_export::names(covered@);
    let ghost ns = variant_names(d.variants@);
    let mut out: Vec<u128> = Vec::new();
    let mut k: usize = 0;
    while k < named.len()
        invariant
            k <= named@.len(),
            *sink.map == *old(sink).map,
            saids(sink.diags@) == saids(old(sink).diags@),
            cov0 == crate::ir_export::names(old(covered)@),
            ns == variant_names(d.variants@),
            labels_spec(named@.take(k as int), cov0, d.variants@, enum_name@) == Ok::<(Seq<Seq<char>>, Seq<u128>), Report>(
                (crate::ir_export::names(covered@), out@)),
        decreases named@.len() - k,
    {
        proof {
            assert(named@.take(k + 1).drop_last() =~= named@.take(k as int));
            assert(named@.take(k + 1).last() == named@[k as int]);
        }
        let b = &named[k];
        let found = variant_ix(&d.variants, &b.text);
        proof {
            lemma_first_ix(ns, b.text@);
        }
        match found {
            None => {
                let mut msg = String::from_str("`");
                msg.append(b.text.as_str());
                msg.append("` is not a variant of `");
                msg.append(enum_name.as_str());
                msg.append("`");
                let mut note = String::from_str("expected one of: ");
                note.append(variant_list(&d.variants).as_str());
                sink.err_note(b.span, msg, note);
                proof {
                    lemma_labels_err(named@, cov0, d.variants@, enum_name@, k + 1);
                }
                return None;
            },
            Some(ix) => {
                if contains_text(covered, &b.text) {
                    let mut msg = String::from_str("`");
                    msg.append(b.text.as_str());
                    msg.append("` is matched twice");
                    report_at(sink, b.span, msg);
                    proof {
                        lemma_labels_err(named@, cov0, d.variants@, enum_name@, k + 1);
                    }
                    return None;
                }
                let ghost before = covered@;
                covered.push(b.text.clone());
                out.push(d.variants[ix].1);
                proof {
                    crate::ir_export::lemma_names_push(before, covered@.last());
                }
            },
        }
        k = k + 1;
    }
    proof {
        assert(named@.take(k as int) =~= named@);
    }
    Some(out)
}

proof fn lemma_bind_named(alts: Seq<BindingPattern>)
    ensures
        bind_of(alts) is Some ==> named_of(alts).len() > 0,
    decreases alts.len(),
{
    if alts.len() > 0 {
        lemma_bind_named(alts.drop_last());
    }
}

proof fn lemma_plans_push(ps: Seq<CasePlan>, p: CasePlan)
    ensures
        plans_view(ps.push(p)) == plans_view(ps).push(plan_view(p)),
{
    assert(plans_view(ps.push(p)) =~= plans_view(ps).push(plan_view(p)));
}

/// One arm, after the arms already planned; see `arm_spec`. Reports what
/// stops it, and says whether anything did not.
fn arm(
    d: &EnumDef,
    enum_name: &String,
    match_span: Span,
    here: Span,
    covered: &mut Vec<String>,
    saw_catch_all: &mut bool,
    saw_unreachable: &mut bool,
    plans: &mut Vec<CasePlan>,
    case: &MatchCase,
    sink: &mut DiagSink,
) -> (ok: bool)
    requires
        def_wf(*d),
        forall|j: int| 0 <= j < case.binding_patterns@.len() ==> flat(#[trigger] case.binding_patterns@[j]),
    ensures
        *final(sink).map == *old(sink).map,
        match arm_spec(*d, enum_name@, match_span, here, (crate::ir_export::names(old(covered)@), *old(saw_catch_all),
            *old(saw_unreachable), plans_view(old(plans)@)), *case) {
            Err(e) => !ok && saids(final(sink).diags@) == saids(old(sink).diags@).push(e),
            Ok(st) => {
                &&& ok
                &&& st == (crate::ir_export::names(final(covered)@), *final(saw_catch_all), *final(saw_unreachable),
                    plans_view(final(plans)@))
                &&& saids(final(sink).diags@) == saids(old(sink).diags@)
            },
        },
{
    if case.binding_patterns.len() != 1 {
        report_at(sink, here, String::from_str("this arm has the wrong number of patterns for one scrutinee"));
        return false;
    }
    if *saw_catch_all || *saw_unreachable {
        report_at(sink, match_span, String::from_str("this arm is unreachable: an earlier arm already matches everything"));
        return false;
    }
    if case.rhs_is_unreachable {
        let is_catch_all = match &case.binding_patterns[0] {
            BindingPattern::Alphanum(_) => true,
            _ => false,
        };
        if !is_catch_all {
            report_at(sink, match_span, String::from_str("`@unreachable` belongs on a `_` arm, not on a named variant"));
            return false;
        }
        *saw_unreachable = true;
        let ghost before = plans@;
        plans.push(CasePlan { labels: Vec::new(), catch_all: None, payload: None, is_unreachable: true });
        proof {
            lemma_plans_push(before, plans@.last());
            assert(plans@.last().labels@ =~= Seq::<u128>::empty());
        }
        return true;
    }
    let (catch, named, bind) = summarize(&case.binding_patterns[0]);
    proof {
        lemma_bind_named(alts_of(case.binding_patterns@[0]));
    }
    if catch.is_some() && named.len() > 0 {
        report_at(sink, match_span, String::from_str("an alternative cannot mix a catch-all binding with named variants"));
        return false;
    }
    let labels_v = if catch.is_some() {
        Vec::new()
    } else {
        match labels(&named, covered, d, enum_name, sink) {
            None => {
                return false;
            },
            Some(l) => l,
        }
    };
    match bind {
        Some((v, b)) => {
            if named.len() != 1 {
                report_at(sink, b.span, String::from_str("an alternative with several variants cannot bind a payload"));
                return false;
            }
            proof {
                lemma_first_ix(variant_names(d.variants@), v.text@);
            }
            let carries_one = match variant_ix(&d.variants, &v.text) {
                Some(ix) => d.payloads[ix].is_some(),
                None => false,
            };
            if !carries_one {
                let mut msg = String::from_str("`");
                msg.append(v.text.as_str());
                msg.append("` carries no payload to bind");
                let mut note = String::from_str("match it as `");
                note.append(v.text.as_str());
                note.append(" =>`");
                sink.err_note(v.span, msg, note);
                return false;
            }
            let ghost before = plans@;
            plans.push(CasePlan { labels: labels_v, catch_all: None, payload: Some((v, b)), is_unreachable: false });
            proof {
                lemma_plans_push(before, plans@.last());
            }
        },
        None => {
            if catch.is_some() {
                *saw_catch_all = true;
            }
            let ghost before = plans@;
            plans.push(CasePlan { labels: labels_v, catch_all: catch, payload: None, is_unreachable: false });
            proof {
                lemma_plans_push(before, plans@.last());
            }
        },
    }
    true
}

/// `1 << w` is `2^w`.
proof fn lemma_shl_two_to(w: u32)
    requires
        w < 127,
    ensures
        (1u128 << w) as nat == two_to(w as nat),
    decreases w,
{
    if w == 0 {
        assert((1u128 << 0u32) == 1u128) by (bit_vector);
    } else {
        let v: u32 = (w - 1) as u32;
        lemma_shl_two_to(v);
        crate::ty::lemma_two_to_grows(v as nat);
        assert((1u128 << w) == 2 * (1u128 << v)) by (bit_vector)
            requires
                w < 127,
                v == w - 1,
        ;
    }
}

/// How many bit patterns a tag of `w` bits has; see `pattern_count`.
fn tag_patterns(w: u32) -> (r: u128)
    ensures
        r as nat == pattern_count(w),
{
    if w >= 127 {
        u128::MAX
    } else {
        proof {
            lemma_shl_two_to(w);
        }
        1u128 << w
    }
}

/// Names joined by commas.
fn join_names(v: &Vec<String>) -> (s: String)
    ensures
        s@ == comma_list(crate::ir_export::names(v@)),
{
    let ghost ns = crate::ir_export::names(v@);
    let mut s = String::new();
    let mut i: usize = 0;
    while i < v.len()
        invariant
            i <= v@.len(),
            ns == crate::ir_export::names(v@),
            s@ == comma_list(ns.take(i as int)),
        decreases v@.len() - i,
    {
        proof {
            assert(ns.take(i + 1).drop_last() =~= ns.take(i as int));
        }
        if i > 0 {
            s.append(", ");
        }
        s.append(v[i].as_str());
        i = i + 1;
    }
    proof {
        assert(ns.take(i as int) =~= ns);
    }
    s
}

/// The variants `covered` leaves out, in declaration order.
fn missing_variants(vs: &Vec<(String, u128)>, covered: &Vec<String>) -> (r: Vec<String>)
    ensures
        crate::ir_export::names(r@) == missing(variant_names(vs@), crate::ir_export::names(covered@)),
{
    let ghost ns = variant_names(vs@);
    let ghost cov = crate::ir_export::names(covered@);
    let mut r: Vec<String> = Vec::new();
    let mut i: usize = 0;
    while i < vs.len()
        invariant
            i <= vs@.len(),
            ns == variant_names(vs@),
            cov == crate::ir_export::names(covered@),
            crate::ir_export::names(r@) == missing(ns.take(i as int), cov),
        decreases vs@.len() - i,
    {
        proof {
            assert(ns.take(i + 1).drop_last() =~= ns.take(i as int));
        }
        if !contains_text(covered, &vs[i].0) {
            let ghost before = r@;
            r.push(vs[i].0.clone());
            proof {
                crate::ir_export::lemma_names_push(before, r@.last());
                assert(crate::ir_export::names(r@) =~= missing(ns.take(i + 1), cov));
            }
        } else {
            proof {
                assert(missing(ns.take(i + 1), cov) =~= missing(ns.take(i as int), cov));
            }
        }
        i = i + 1;
    }
    proof {
        assert(ns.take(i as int) =~= ns);
    }
    r
}

/// Where a lowerer's diagnostics go right now.
pub open spec fn here_of(low: Lowerer) -> Span {
    if low.anchors_view().len() > 0 {
        low.anchors_view().last()
    } else {
        Span { lo: 0, hi: 0 }
    }
}

pub open spec fn opt_def(d: Option<&EnumDef>) -> Option<EnumDef> {
    match d {
        Some(x) => Some(*x),
        None => None,
    }
}

/// Resolves the patterns of a `match` and checks that it covers its
/// scrutinee; see `plan_spec`.
///
/// `def` is the declaration of the scrutinee's enum. Every variant the enum
/// declares must be matched, or a `_` arm supply the rest; and covering every
/// variant is not covering every bit pattern when the tag has room for more,
/// so a sparse enum also needs `_ =>` with a value or `_ => @unreachable` --
/// otherwise the last arm would silently be the fallback, and reordering
/// equivalent arms would change what an undeclared pattern produces.
pub fn plan_match(low: &Lowerer, stmt: &MatchStmt, scrutinee_ty: &Ty, def: Option<&EnumDef>, sink: &mut DiagSink) -> (r: Option<MatchShape>)
    requires
        stmt_flat(*stmt),
        def matches Some(d) ==> def_wf(*d),
    ensures
        *final(sink).map == *old(sink).map,
        match plan_spec(*stmt, *scrutinee_ty, opt_def(def), here_of(*low)) {
            None => r is None && saids(final(sink).diags@) == saids(old(sink).diags@),
            Some(Err(e)) => r is None && saids(final(sink).diags@) == saids(old(sink).diags@).push(e),
            Some(Ok(shape)) => r is Some && shape_view(r->0) == shape && saids(final(sink).diags@) == saids(
                old(sink).diags@,
            ),
        },
{
    let here = low.here();
    if stmt.scrutinees != 1 {
        let mut msg = String::from_str("`match` takes one scrutinee here, found ");
        push_decimal_wide(&mut msg, stmt.scrutinees as u128);
        report_at(sink, here, msg);
        return None;
    }
    let (enum_name, total_width) = match scrutinee_ty {
        Ty::Enum { name, width } => (name.clone(), *width),
        other => {
            let mut msg = String::from_str("`match` needs an enum, found `");
            msg.append(other.display().as_str());
            msg.append("`");
            sink.err_note(here, msg, String::from_str("compare with `==` instead, or give the value an enum type"));
            return None;
        },
    };
    let d = match def {
        Some(d) => d,
        None => {
            return None;
        },
    };
    let match_span = find_match_span(&stmt.cases, here);
    let mut covered: Vec<String> = Vec::new();
    let mut saw_catch_all = false;
    let mut saw_unreachable = false;
    let mut plans: Vec<CasePlan> = Vec::new();
    let mut i: usize = 0;
    proof {
        assert(stmt.cases@.take(0) =~= Seq::<MatchCase>::empty());
        assert(crate::ir_export::names(covered@) =~= Seq::<Seq<char>>::empty());
        assert(plans_view(plans@) =~= Seq::<PlanView>::empty());
    }
    while i < stmt.cases.len()
        invariant
            i <= stmt.cases@.len(),
            stmt_flat(*stmt),
            def_wf(*d),
            stmt.scrutinees == 1,
            *scrutinee_ty is Enum,
            enum_name@ == scrutinee_ty->Enum_name@,
            total_width == scrutinee_ty->Enum_width,
            opt_def(def) == Some(*d),
            here == here_of(*low),
            match_span == match_span_of(stmt.cases@, here),
            *sink.map == *old(sink).map,
            saids(sink.diags@) == saids(old(sink).diags@),
            arms_spec(*d, enum_name@, match_span, here, stmt.cases@.take(i as int)) == Ok::<Scan, Report>(
                (crate::ir_export::names(covered@), saw_catch_all, saw_unreachable, plans_view(plans@))),
        decreases stmt.cases@.len() - i,
    {
        proof {
            assert(stmt.cases@.take(i + 1).drop_last() =~= stmt.cases@.take(i as int));
            assert(stmt.cases@.take(i + 1).last() == stmt.cases@[i as int]);
            assert forall|j: int| 0 <= j < stmt.cases@[i as int].binding_patterns@.len() implies flat(
                #[trigger] stmt.cases@[i as int].binding_patterns@[j]) by {}
        }
        let ok = arm(d, &enum_name, match_span, here, &mut covered, &mut saw_catch_all, &mut saw_unreachable, &mut plans,
            &stmt.cases[i], sink);
        if !ok {
            proof {
                assert(arms_spec(*d, enum_name@, match_span, here, stmt.cases@.take(i + 1)) is Err);
                lemma_arms_err(*d, enum_name@, match_span, here, stmt.cases@, i + 1);
                let e = arms_spec(*d, enum_name@, match_span, here, stmt.cases@)->Err_0;
                assert(plan_spec(*stmt, *scrutinee_ty, opt_def(def), here_of(*low)) == Some(Err::<ShapeView, Report>(e)));
            }
            return None;
        }
        i = i + 1;
    }
    proof {
        assert(stmt.cases@.take(i as int) =~= stmt.cases@);
    }
    let mut has_arms = false;
    let mut k: usize = 0;
    while k < plans.len()
        invariant
            k <= plans@.len(),
            has_arms <==> exists|j: int| 0 <= j < k && !(#[trigger] plans_view(plans@)[j]).3,
        decreases plans@.len() - k,
    {
        if !plans[k].is_unreachable {
            has_arms = true;
        }
        proof {
            assert(plans_view(plans@)[k as int].3 == plans@[k as int].is_unreachable);
        }
        k = k + 1;
    }
    if !has_arms {
        report_at(sink, here, String::from_str("`match` needs at least one arm"));
        return None;
    }
    if !saw_catch_all && covered.len() != d.variants.len() {
        let miss = missing_variants(&d.variants, &covered);
        let mut msg = String::from_str("`match` does not cover ");
        msg.append(join_names(&miss).as_str());
        sink.err_note(match_span, msg, String::from_str(
            "add the missing arms or a `_` catch-all; a partial match would be a latch"));
        return None;
    }
    let count = tag_patterns(d.tag_width);
    let fully_populated = d.variants.len() as u128 == count;
    if !(saw_catch_all || saw_unreachable) && !fully_populated {
        let spare = count - d.variants.len() as u128;
        let mut msg = String::from_str("`match` covers every variant of `");
        msg.append(enum_name.as_str());
        msg.append("`, but its ");
        push_decimal_wide(&mut msg, d.tag_width as u128);
        msg.append("-bit tag has ");
        push_decimal_wide(&mut msg, spare);
        msg.append(" pattern(s) that name no variant");
        sink.err_note(match_span, msg, String::from_str(
            "add `_ =>` with a value, or `_ => @unreachable` if those patterns cannot occur; without one the last arm becomes the fallback, and reordering the arms would change the result"));
        return None;
    }
    Some(MatchShape {
        enum_name,
        tag_width: d.tag_width,
        payload_width: d.payload_width,
        total_width,
        cases: plans,
        span: match_span,
    })
}

/// The tag a `match` selects on.
///
/// A tagged union is matched on its tag, not on the whole value: the payload
/// differs from one item to the next, and comparing it would mean no arm ever
/// fired. The tag sits in the high bits, so this is a slice; for an enum with
/// no payloads it is the value itself.
pub fn match_tag(low: &mut Lowerer, shape: &MatchShape, scrutinee: ValueId) -> (r: ValueId)
    requires
        old(low).inv(),
        old(low).room(1),
        vid_ok(scrutinee, old(low).vals().len()),
        shape.payload_width > 0 ==> shape.total_width > 0,
    ensures
        final(low).inv(),
        final(low).same_frame(old(low)),
        vid_ok(r, final(low).vals().len()),
        shape.payload_width == 0 ==> r == scrutinee && final(low).vals() == old(low).vals(),
        shape.payload_width > 0 ==> {
            let n = old(low).vals().len();
            &&& r.0 == n
            &&& final(low).vals().len() == n + 1
            &&& grows(old(low).vals(), final(low).vals())
            &&& def_is(final(low).vals()[n as int], n, Ty::UInt(shape.tag_width), Op::Slice {
                arg: scrutinee,
                hi: (shape.total_width - 1) as u32,
                lo: shape.payload_width,
            })
            &&& named(final(low).vals()[n as int], shape.enum_name@ + "_tag"@)
        },
{
    if shape.payload_width == 0 {
        return scrutinee;
    }
    let t = low.emit(Ty::UInt(shape.tag_width), Op::Slice { arg: scrutinee, hi: shape.total_width - 1, lo: shape.payload_width });
    let name = crate::lowerer::suffixed(&shape.enum_name, "_tag");
    low.name_value_safe(t, name);
    t
}

/// The payload an arm binds, as a value of the payload's own type: the
/// low `w` bits of the payload field, retyped when the payload is not a
/// plain unsigned value, so a struct payload's fields stay reachable and a
/// signed one stays signed. `None` when the variant carries no payload.
pub fn payload_value(low: &mut Lowerer, shape: &MatchShape, scrutinee: ValueId, variant: &Named, def: &EnumDef) -> (r: Option<(ValueId, Ty)>)
    requires
        old(low).inv(),
        old(low).room(2),
        def_wf(*def),
        vid_ok(scrutinee, old(low).vals().len()),
        payload_of(*def, variant.text@) matches Some(t) ==> width(t) <= shape.payload_width && shape.payload_width > 0,
    ensures
        final(low).inv(),
        final(low).same_frame(old(low)),
        match payload_of(*def, variant.text@) {
            None => r is None && final(low).vals() == old(low).vals(),
            Some(t) => match r {
                None => false,
                Some((v, ty)) => {
                    let n = old(low).vals().len();
                    let w = width(t);
                    &&& ty == t
                    &&& vid_ok(v, final(low).vals().len())
                    &&& grows(old(low).vals(), final(low).vals())
                    &&& def_is(final(low).vals()[n as int], n, Ty::UInt(w as u32), Op::Slice {
                        arg: scrutinee,
                        hi: (shape.payload_width - 1) as u32,
                        lo: (shape.payload_width - w) as u32,
                    })
                    &&& if t is UInt {
                        v.0 == n && final(low).vals().len() == n + 1
                    } else {
                        &&& v.0 == n + 1
                        &&& final(low).vals().len() == n + 2
                        &&& def_is(final(low).vals()[(n + 1) as int], (n + 1) as nat, t, Op::Cast { arg: ValueId(n as u32) })
                    }
                },
            },
        },
{
    proof {
        lemma_first_ix(variant_names(def.variants@), variant.text@);
    }
    let payload_ty = match variant_ix(&def.variants, &variant.text) {
        Some(ix) => match &def.payloads[ix] {
            Some(t) => t.clone(),
            None => {
                return None;
            },
        },
        None => {
            return None;
        },
    };
    let bits = payload_ty.bit_width();
    let raw = low.emit(Ty::UInt(bits), Op::Slice { arg: scrutinee, hi: shape.payload_width - 1, lo: shape.payload_width - bits });
    let ghost mid = low.vals();
    let same = low.ty_of(raw).same(&payload_ty);
    let value = if same {
        raw
    } else {
        low.emit(payload_ty.clone(), Op::Cast { arg: raw })
    };
    proof {
        if !same {
            assert(low.vals()[(old(low).vals().len() + 1) as int].op == Op::Cast { arg: raw });
            assert(forall|i: int| 0 <= i < mid.len() ==> #[trigger] low.vals()[i] == mid[i]);
        }
    }
    Some((value, payload_ty))
}

/// The indices of the first `k` plans that can be selected, in order.
pub open spec fn selectable_upto(ps: Seq<CasePlan>, k: int) -> Seq<usize>
    decreases k,
{
    if k <= 0 {
        Seq::empty()
    } else {
        let prev = selectable_upto(ps, k - 1);
        if ps[k - 1].is_unreachable {
            prev
        } else {
            prev.push((k - 1) as usize)
        }
    }
}

impl MatchShape {
    /// The arms that can be selected, as indices of the cases they came
    /// from, in source order: every arm but a `_ => @unreachable`.
    pub fn selectable(&self) -> (r: Vec<usize>)
        ensures
            r@ == selectable_upto(self.cases@, self.cases@.len() as int),
    {
        let mut r: Vec<usize> = Vec::new();
        let mut k: usize = 0;
        while k < self.cases.len()
            invariant
                k <= self.cases@.len(),
                r@ == selectable_upto(self.cases@, k as int),
            decreases self.cases@.len() - k,
        {
            if !self.cases[k].is_unreachable {
                r.push(k);
            }
            k = k + 1;
        }
        r
    }
}

/// Where a name's discriminant is: the first variant of that name.
pub open spec fn disc_of(vs: Seq<(String, u128)>, v: Seq<char>) -> u128 {
    vs[first_ix(variant_names(vs), v)].1
}

/// Some arm selects on `label`.
pub open spec fn labelled(plans: Seq<PlanView>, label: u128) -> bool {
    exists|k: int, m: int| 0 <= k < plans.len() && 0 <= m < plans[k].0.len() && #[trigger] plans[k].0[m] == label
}

/// What the arms scanned so far keep true: each variant covered once, each
/// one the enum's and selected by some arm, and an arm for each way the rest
/// was accounted for.
pub open spec fn scan_ok(vs: Seq<(String, u128)>, st: Scan) -> bool {
    let (covered, saw_catch_all, saw_unreachable, plans) = st;
    &&& covered.no_duplicates()
    &&& forall|i: int| 0 <= i < covered.len() ==> variant_names(vs).contains(#[trigger] covered[i])
    &&& forall|i: int| 0 <= i < covered.len() ==> labelled(plans, disc_of(vs, #[trigger] covered[i]))
    &&& saw_catch_all ==> exists|k: int| 0 <= k < plans.len() && (#[trigger] plans[k]).1 is Some
    &&& saw_unreachable ==> exists|k: int| 0 <= k < plans.len() && (#[trigger] plans[k]).3
}

/// The labels an arm adds cover the variants it adds.
proof fn lemma_labels_ok(named: Seq<Named>, covered: Seq<Seq<char>>, vs: Seq<(String, u128)>, enum_name: Seq<char>)
    requires
        labels_spec(named, covered, vs, enum_name) is Ok,
        covered.no_duplicates(),
        forall|i: int| 0 <= i < covered.len() ==> variant_names(vs).contains(#[trigger] covered[i]),
    ensures
        ({
            let (cov, ls) = labels_spec(named, covered, vs, enum_name)->Ok_0;
            &&& cov.no_duplicates()
            &&& forall|i: int| 0 <= i < cov.len() ==> variant_names(vs).contains(#[trigger] cov[i])
            &&& cov.len() >= covered.len()
            &&& forall|i: int| 0 <= i < covered.len() ==> #[trigger] cov[i] == covered[i]
            &&& forall|i: int| covered.len() <= i < cov.len() ==> ls.contains(disc_of(vs, #[trigger] cov[i]))
        }),
    decreases named.len(),
{
    if named.len() > 0 {
        lemma_labels_ok(named.drop_last(), covered, vs, enum_name);
        let (cov, ls) = labels_spec(named.drop_last(), covered, vs, enum_name)->Ok_0;
        let v = named.last().text@;
        let (cov2, ls2) = labels_spec(named, covered, vs, enum_name)->Ok_0;
        assert(cov2 == cov.push(v));
        assert(ls2 == ls.push(vs[first_ix(variant_names(vs), v)].1));
        assert forall|i: int| covered.len() <= i < cov2.len() implies ls2.contains(disc_of(vs, #[trigger] cov2[i])) by {
            if i < cov.len() {
                assert(cov2[i] == cov[i]);
                assert(ls.contains(disc_of(vs, cov[i])));
                let m = choose|m: int| 0 <= m < ls.len() && ls[m] == disc_of(vs, cov[i]);
                assert(ls2[m] == ls[m]);
            } else {
                assert(ls2[ls.len() as int] == disc_of(vs, cov2[i]));
            }
        }
    }
}

proof fn lemma_labelled_push(plans: Seq<PlanView>, p: PlanView, label: u128)
    requires
        labelled(plans, label),
    ensures
        labelled(plans.push(p), label),
{
    let (k, m) = choose|k: int, m: int| 0 <= k < plans.len() && 0 <= m < plans[k].0.len() && #[trigger] plans[k].0[m] == label;
    assert(plans.push(p)[k] == plans[k]);
}

/// One more arm keeps the scan sound.
proof fn lemma_arm_ok(d: EnumDef, enum_name: Seq<char>, match_span: Span, here: Span, st: Scan, case: MatchCase)
    requires
        scan_ok(d.variants@, st),
        arm_spec(d, enum_name, match_span, here, st, case) is Ok,
    ensures
        scan_ok(d.variants@, arm_spec(d, enum_name, match_span, here, st, case)->Ok_0),
{
    let vs = d.variants@;
    let (covered, saw_catch_all, saw_unreachable, plans) = st;
    let st2 = arm_spec(d, enum_name, match_span, here, st, case)->Ok_0;
    let plans2 = st2.3;
    assert(plans2.len() == plans.len() + 1);
    assert(forall|k: int| 0 <= k < plans.len() ==> plans2[k] == plans[k]);
    if saw_catch_all {
        let k = choose|k: int| 0 <= k < plans.len() && (#[trigger] plans[k]).1 is Some;
        assert(plans2[k] == plans[k]);
    }
    if saw_unreachable {
        let k = choose|k: int| 0 <= k < plans.len() && (#[trigger] plans[k]).3;
        assert(plans2[k] == plans[k]);
    }
    assert forall|i: int| 0 <= i < covered.len() implies labelled(plans2, disc_of(vs, #[trigger] covered[i])) by {
        lemma_labelled_push(plans, plans2.last(), disc_of(vs, covered[i]));
        assert(plans.push(plans2.last()) =~= plans2);
    }
    let pats = case.binding_patterns@;
    if !case.rhs_is_unreachable {
        let alts = alts_of(pats[0]);
        let catch = catch_of(alts);
        let named = named_of(alts);
        if catch is Some {
            assert(plans2.last().1 is Some);
        } else {
            lemma_labels_ok(named, covered, vs, enum_name);
            let (cov, ls) = labels_spec(named, covered, vs, enum_name)->Ok_0;
            assert(st2.0 == cov);
            assert(plans2.last().0 == ls);
            assert forall|i: int| 0 <= i < cov.len() implies labelled(plans2, disc_of(vs, #[trigger] cov[i])) by {
                if i < covered.len() {
                    assert(cov[i] == covered[i]);
                } else {
                    assert(ls.contains(disc_of(vs, cov[i])));
                    let m = choose|m: int| 0 <= m < ls.len() && ls[m] == disc_of(vs, cov[i]);
                    assert(plans2[plans.len() as int].0[m] == disc_of(vs, cov[i]));
                }
            }
        }
    } else {
        assert(plans2.last().3);
    }
}

proof fn lemma_arms_ok(d: EnumDef, enum_name: Seq<char>, match_span: Span, here: Span, cases: Seq<MatchCase>)
    requires
        arms_spec(d, enum_name, match_span, here, cases) is Ok,
    ensures
        scan_ok(d.variants@, arms_spec(d, enum_name, match_span, here, cases)->Ok_0),
    decreases cases.len(),
{
    if cases.len() == 0 {
        let st: Scan = (Seq::empty(), false, false, Seq::empty());
        assert(st.0.no_duplicates());
    } else {
        lemma_arms_ok(d, enum_name, match_span, here, cases.drop_last());
        lemma_arm_ok(d, enum_name, match_span, here, arms_spec(d, enum_name, match_span, here, cases.drop_last())->Ok_0,
            cases.last());
    }
}

/// A distinct subset of a list of distinct names, as long as the list, is
/// all of it.
proof fn lemma_covers_all(covered: Seq<Seq<char>>, ns: Seq<Seq<char>>)
    requires
        covered.no_duplicates(),
        ns.no_duplicates(),
        covered.len() == ns.len(),
        forall|i: int| 0 <= i < covered.len() ==> ns.contains(#[trigger] covered[i]),
    ensures
        forall|i: int| 0 <= i < ns.len() ==> covered.contains(#[trigger] ns[i]),
{
    broadcast use vstd::seq_lib::seq_to_set_is_finite;
    covered.unique_seq_to_set();
    ns.unique_seq_to_set();
    assert(covered.to_set().subset_of(ns.to_set())) by {
        assert forall|x: Seq<char>| covered.to_set().contains(x) implies ns.to_set().contains(x) by {
            let i = choose|i: int| 0 <= i < covered.len() && covered[i] == x;
            assert(ns.contains(covered[i]));
        }
    }
    vstd::set_lib::lemma_subset_equality(covered.to_set(), ns.to_set());
    assert forall|i: int| 0 <= i < ns.len() implies covered.contains(#[trigger] ns[i]) by {
        assert(ns.to_set().contains(ns[i]));
        assert(covered.to_set().contains(ns[i]));
    }
}

/// A `match` that plans is exhaustive: unless an arm matches everything by
/// value, every variant the enum declares is the label of some arm, and
/// unless an arm also accounts for the rest, the tag has no pattern that
/// names no variant. So no value of the scrutinee's type falls through to
/// whichever arm happens to be last.
pub proof fn law_a_planned_match_is_exhaustive(stmt: MatchStmt, ty: Ty, d: EnumDef, here: Span)
    requires
        plan_spec(stmt, ty, Some(d), here) matches Some(Ok(_)),
        variant_names(d.variants@).no_duplicates(),
    ensures
        ({
            let plans = plan_spec(stmt, ty, Some(d), here)->Some_0->Ok_0.4;
            &&& (exists|k: int| 0 <= k < plans.len() && (#[trigger] plans[k]).1 is Some) || forall|v: int|
                0 <= v < d.variants@.len() ==> labelled(plans, #[trigger] d.variants@[v].1)
            &&& (exists|k: int| 0 <= k < plans.len() && ((#[trigger] plans[k]).1 is Some || plans[k].3)) || d.variants@.len()
                == pattern_count(d.tag_width)
        }),
{
    let enum_name = ty->Enum_name@;
    let span = match_span_of(stmt.cases@, here);
    assert(stmt.scrutinees == 1 && ty is Enum);
    assert(arms_spec(d, enum_name, span, here, stmt.cases@) is Ok);
    lemma_arms_ok(d, enum_name, span, here, stmt.cases@);
    let (covered, saw_catch_all, saw_unreachable, plans) = arms_spec(d, enum_name, span, here, stmt.cases@)->Ok_0;
    let ns = variant_names(d.variants@);
    assert(plan_spec(stmt, ty, Some(d), here)->Some_0->Ok_0.4 == plans);
    assert(saw_catch_all || covered.len() == ns.len());
    assert(saw_catch_all || saw_unreachable || ns.len() == pattern_count(d.tag_width));
    if !saw_catch_all {
        lemma_covers_all(covered, ns);
        assert forall|v: int| 0 <= v < d.variants@.len() implies labelled(plans, #[trigger] d.variants@[v].1) by {
            assert(covered.contains(ns[v]));
            let i = choose|i: int| 0 <= i < covered.len() && covered[i] == ns[v];
            assert(labelled(plans, disc_of(d.variants@, covered[i])));
            lemma_first_ix(ns, ns[v]);
            assert(ns[first_ix(ns, ns[v])] == ns[v]);
            assert(first_ix(ns, ns[v]) == v);
        }
    } else {
        let k = choose|k: int| 0 <= k < plans.len() && (#[trigger] plans[k]).1 is Some;
    }
    if saw_unreachable {
        let k = choose|k: int| 0 <= k < plans.len() && (#[trigger] plans[k]).3;
        assert(plans[k].1 is Some || plans[k].3);
    } else if saw_catch_all {
        let k = choose|k: int| 0 <= k < plans.len() && (#[trigger] plans[k]).1 is Some;
        assert(plans[k].1 is Some || plans[k].3);
    }
}

} // verus!
