// Export targets: which module an invocation is FOR, and what its boundary
// looks like.
//
// It decides two things, and they are not the same. WHAT IS EMITTED is the
// targets and everything they use, transitively -- a graph cannot instantiate
// a sequence that is not in the file. Nothing else goes in. WHAT IS WRAPPED is
// narrower still: only the targets themselves present a FIFO, because
// everything else in the file is internal to one of them.
//
// A target does not present the salt protocol. It presents a FIFO, and the
// translation is a wrapper written here: the lowered module keeps its logic
// and takes the name `<name>_core`, and a new module under the original name
// holds the FIFO ports, one adapter per pipe, and one instance of the core.
//
// WHICH module is decided from the use graph. A root is a candidate that
// nothing else uses, where "uses" means both halves: the instances a `graph`
// builds, and the calls a body inlined -- an inlined call leaves no
// `Instance` behind. When one root survives, it is the target and no flag is
// needed. When several do, the compiler asks rather than guessing.

use vstd::prelude::*;
use crate::ir::{Module, Instance, Port, PortDir, Net};
use crate::ir_graph::{ArgSig, PipeSig, BlockSig};
use crate::ir_adapt::{Adapt, AdaptUse, adapt_at, adapt_face, adapt_name, salt_pipe_name};
use crate::ty::{Ty, bool_ty, same_ty, width};
use crate::lowerer::{salt, salt_ty, bool_type, suffixed};
use crate::diag::Diag;
use crate::sort::{sorted, sorted_distinct, sort_names, sort_distinct};

verus! {

/// The suffix a wrapped module's logic takes, so the wrapper can have the name.
pub const CORE_SUFFIX: &'static str = "_core";

/// What the flags asked for.
#[derive(Debug)]
pub struct ExportFlags {
    /// `--export a,b` -- these present the FIFO interface.
    pub export: Vec<String>,
    /// `--bare-export a,b` -- these keep the raw salt ports.
    pub bare: Vec<String>,
}

impl ExportFlags {
    pub fn is_empty(&self) -> (r: bool)
        ensures
            r == (self.export@.len() == 0 && self.bare@.len() == 0),
    {
        self.export.len() == 0 && self.bare.len() == 0
    }
}

/// What an invocation emits, and which of it presents a FIFO.
#[derive(Debug)]
pub struct Exports {
    /// The modules the build is for. These, and everything they use, are
    /// emitted; nothing else is.
    pub keep: Vec<String>,
    /// Of those, the ones presenting the FIFO interface.
    pub wrap: Vec<String>,
}

/// The text of each string.
pub open spec fn names(v: Seq<String>) -> Seq<Seq<char>> {
    v.map_values(|s: String| s@)
}

/// Every name a module uses: the modules its instances build, then the
/// functions its body inlined.
pub open spec fn succs(m: Module) -> Seq<Seq<char>> {
    Seq::new(m.instances@.len(), |j: int| m.instances@[j].module@) + names(m.calls@)
}

/// Whether some module uses `n`.
pub open spec fn used(mods: Seq<Module>, n: Seq<char>) -> bool {
    exists|i: int| 0 <= i < mods.len() && #[trigger] succs(mods[i]).contains(n)
}

/// The roots among the first `k` modules, in module order: offered as a
/// candidate, used by none.
pub open spec fn roots_upto(mods: Seq<Module>, cands: Seq<Seq<char>>, k: int) -> Seq<Seq<char>>
    decreases k,
{
    if k <= 0 {
        Seq::empty()
    } else {
        let prev = roots_upto(mods, cands, k - 1);
        let n = mods[k - 1].name@;
        if cands.contains(n) && !used(mods, n) {
            prev.push(n)
        } else {
            prev
        }
    }
}

pub proof fn lemma_names_push(v: Seq<String>, s: String)
    ensures
        names(v.push(s)) == names(v).push(s@),
{
    assert(names(v.push(s)) =~= names(v).push(s@));
}

/// Whether `v` holds a string with the text `s`.
fn contains_name(v: &Vec<String>, s: &String) -> (r: bool)
    ensures
        r == names(v@).contains(s@),
{
    let mut i: usize = 0;
    while i < v.len()
        invariant
            i <= v@.len(),
            forall|j: int| 0 <= j < i ==> v@[j]@ != s@,
        decreases v@.len() - i,
    {
        if v[i] == *s {
            proof {
                assert(names(v@)[i as int] == s@);
            }
            return true;
        }
        i = i + 1;
    }
    proof {
        if names(v@).contains(s@) {
            let j = choose|j: int| 0 <= j < names(v@).len() && names(v@)[j] == s@;
            assert(v@[j]@ == s@);
        }
    }
    false
}

/// Appends the names one module uses.
fn push_succs(m: &Module, out: &mut Vec<String>)
    ensures
        names(final(out)@) == names(old(out)@) + succs(*m),
{
    let ghost start = names(out@);
    let mut j: usize = 0;
    while j < m.instances.len()
        invariant
            j <= m.instances@.len(),
            names(out@) == start + Seq::new(j as nat, |k: int| m.instances@[k].module@),
        decreases m.instances@.len() - j,
    {
        let ghost before = out@;
        out.push(m.instances[j].module.clone());
        proof {
            lemma_names_push(before, out@.last());
            assert(names(out@) =~= start + Seq::new((j + 1) as nat, |k: int| m.instances@[k].module@));
        }
        j = j + 1;
    }
    let ghost mid = names(out@);
    let mut j: usize = 0;
    while j < m.calls.len()
        invariant
            j <= m.calls@.len(),
            names(out@) == mid + names(m.calls@).take(j as int),
        decreases m.calls@.len() - j,
    {
        let ghost before = out@;
        out.push(m.calls[j].clone());
        proof {
            lemma_names_push(before, out@.last());
            assert(names(out@) =~= mid + names(m.calls@).take(j + 1));
        }
        j = j + 1;
    }
    proof {
        assert(names(m.calls@).take(j as int) =~= names(m.calls@));
        assert(Seq::new(m.instances@.len(), |k: int| m.instances@[k].module@) =~= Seq::new(
            m.instances@.len() as nat, |k: int| m.instances@[k].module@));
        assert(names(out@) =~= start + succs(*m));
    }
}

/// Every module that nothing else uses, among the ones offered as
/// candidates, in module order.
///
/// Both halves of the use graph: what a `graph` instantiates, and what a body
/// inlined. Neither alone is the answer.
pub fn roots(modules: &Vec<Module>, candidates: &Vec<String>) -> (r: Vec<String>)
    ensures
        names(r@) == roots_upto(modules@, names(candidates@), modules@.len() as int),
{
    let mut all_used: Vec<String> = Vec::new();
    let mut i: usize = 0;
    while i < modules.len()
        invariant
            i <= modules@.len(),
            forall|n: Seq<char>| names(all_used@).contains(n) <==> exists|k: int| 0 <= k < i && #[trigger] succs(modules@[k]).contains(n),
        decreases modules@.len() - i,
    {
        let ghost before = names(all_used@);
        push_succs(&modules[i], &mut all_used);
        proof {
            assert forall|n: Seq<char>| names(all_used@).contains(n) <==> exists|k: int| 0 <= k < i + 1 && #[trigger] succs(modules@[k]).contains(n) by {
                if names(all_used@).contains(n) {
                    let p = choose|p: int| 0 <= p < names(all_used@).len() && names(all_used@)[p] == n;
                    if p >= before.len() {
                        assert(succs(modules@[i as int])[p - before.len()] == n);
                        assert(succs(modules@[i as int]).contains(n));
                    } else {
                        assert(before[p] == n);
                        assert(before.contains(n));
                    }
                }
                if exists|k: int| 0 <= k < i + 1 && #[trigger] succs(modules@[k]).contains(n) {
                    let k = choose|k: int| 0 <= k < i + 1 && #[trigger] succs(modules@[k]).contains(n);
                    if k == i {
                        let p = choose|p: int| 0 <= p < succs(modules@[k]).len() && succs(modules@[k])[p] == n;
                        assert(names(all_used@)[before.len() + p] == n);
                    } else {
                        assert(before.contains(n));
                        let p = choose|p: int| 0 <= p < before.len() && before[p] == n;
                        assert(names(all_used@)[p] == n);
                    }
                }
            }
        }
        i = i + 1;
    }
    let mut r: Vec<String> = Vec::new();
    let mut i: usize = 0;
    while i < modules.len()
        invariant
            i <= modules@.len(),
            forall|n: Seq<char>| names(all_used@).contains(n) <==> used(modules@, n),
            names(r@) == roots_upto(modules@, names(candidates@), i as int),
        decreases modules@.len() - i,
    {
        let m = &modules[i];
        if contains_name(candidates, &m.name) && !contains_name(&all_used, &m.name) {
            let ghost before = r@;
            r.push(m.name.clone());
            proof {
                lemma_names_push(before, r@.last());
                assert(names(r@) =~= roots_upto(modules@, names(candidates@), i as int).push(m.name@));
            }
        }
        i = i + 1;
    }
    r
}

/// The module a name refers to: the last one by that name, as a map built
/// from the list would hold; -1 when there is none. An `extern` is named by
/// an instance and has no module here.
pub open spec fn module_named(mods: Seq<Module>, n: Seq<char>) -> int
    decreases mods.len(),
{
    if mods.len() == 0 {
        -1
    } else if mods.last().name@ == n {
        mods.len() - 1
    } else {
        module_named(mods.drop_last(), n)
    }
}

/// `a` uses `b`: `a` is a module here and names `b`.
pub open spec fn edge(mods: Seq<Module>, a: Seq<char>, b: Seq<char>) -> bool {
    module_named(mods, a) >= 0 && succs(mods[module_named(mods, a)]).contains(b)
}

/// Step `i` of a path is an edge.
pub open spec fn step(mods: Seq<Module>, p: Seq<Seq<char>>, i: int) -> bool {
    edge(mods, p[i], p[i + 1])
}

/// `p` starts at a seed and follows the use graph.
pub open spec fn is_path(mods: Seq<Module>, seeds: Seq<Seq<char>>, p: Seq<Seq<char>>) -> bool {
    &&& p.len() >= 1
    &&& seeds.contains(p[0])
    &&& forall|i: int| 0 <= i < p.len() - 1 ==> #[trigger] step(mods, p, i)
}

/// Some path from a seed ends at `n`.
pub open spec fn reachable(mods: Seq<Module>, seeds: Seq<Seq<char>>, n: Seq<char>) -> bool {
    exists|p: Seq<Seq<char>>| is_path(mods, seeds, p) && p.last() == n
}

/// Every name any module uses, module by module.
pub open spec fn all_succs(mods: Seq<Module>) -> Seq<Seq<char>>
    decreases mods.len(),
{
    if mods.len() == 0 {
        Seq::empty()
    } else {
        all_succs(mods.drop_last()) + succs(mods.last())
    }
}

/// Positions of `u` whose name `s` does not hold.
pub open spec fn count_unseen(u: Seq<Seq<char>>, s: Seq<Seq<char>>) -> nat
    decreases u.len(),
{
    if u.len() == 0 {
        0
    } else {
        count_unseen(u.drop_last(), s) + (if s.contains(u.last()) { 0nat } else { 1nat })
    }
}

proof fn lemma_count_push(u: Seq<Seq<char>>, s: Seq<Seq<char>>, n: Seq<char>)
    ensures
        count_unseen(u, s.push(n)) <= count_unseen(u, s),
        u.contains(n) && !s.contains(n) ==> count_unseen(u, s.push(n)) < count_unseen(u, s),
    decreases u.len(),
{
    if u.len() > 0 {
        let t = u.drop_last();
        lemma_count_push(t, s, n);
        assert(s.push(n).contains(u.last()) <== s.contains(u.last())) by {
            if s.contains(u.last()) {
                let k = choose|k: int| 0 <= k < s.len() && s[k] == u.last();
                assert(s.push(n)[k] == u.last());
            }
        }
        if u.last() == n {
            assert(s.push(n)[s.len() as int] == n);
        }
        if u.contains(n) && u.last() != n {
            let k = choose|k: int| 0 <= k < u.len() && u[k] == n;
            assert(t[k] == n);
        }
    }
}

proof fn lemma_all_succs(mods: Seq<Module>, i: int, y: Seq<char>)
    requires
        0 <= i < mods.len(),
        succs(mods[i]).contains(y),
    ensures
        all_succs(mods).contains(y),
    decreases mods.len(),
{
    let t = mods.drop_last();
    if i < mods.len() - 1 {
        lemma_all_succs(t, i, y);
        let k = choose|k: int| 0 <= k < all_succs(t).len() && all_succs(t)[k] == y;
        assert(all_succs(mods)[k] == y);
    } else {
        let k = choose|k: int| 0 <= k < succs(mods[i]).len() && succs(mods[i])[k] == y;
        assert(all_succs(mods)[all_succs(t).len() + k] == y);
    }
}

proof fn lemma_module_named(mods: Seq<Module>, n: Seq<char>)
    ensures
        -1 <= module_named(mods, n) < mods.len(),
        module_named(mods, n) >= 0 ==> mods[module_named(mods, n)].name@ == n,
        module_named(mods, n) >= 0 ==> forall|j: int| module_named(mods, n) < j < mods.len() ==> mods[j].name@ != n,
        module_named(mods, n) < 0 ==> forall|j: int| 0 <= j < mods.len() ==> mods[j].name@ != n,
    decreases mods.len(),
{
    if mods.len() > 0 && mods.last().name@ != n {
        let t = mods.drop_last();
        lemma_module_named(t, n);
        assert forall|j: int| 0 <= j < t.len() implies t[j] == mods[j] by {}
    }
}

/// The module a name refers to, the last one by that name.
fn find_module(modules: &Vec<Module>, name: &String) -> (r: Option<usize>)
    ensures
        match r {
            Some(i) => i as int == module_named(modules@, name@),
            None => module_named(modules@, name@) < 0,
        },
{
    let mut i = modules.len();
    proof {
        assert(modules@.take(i as int) =~= modules@);
    }
    while i > 0
        invariant
            i <= modules@.len(),
            module_named(modules@, name@) == module_named(modules@.take(i as int), name@),
        decreases i,
    {
        proof {
            assert(modules@.take(i as int).drop_last() =~= modules@.take(i - 1));
        }
        if modules[i - 1].name == *name {
            return Some(i - 1);
        }
        i = i - 1;
    }
    None
}

proof fn lemma_path_extend(mods: Seq<Module>, seeds: Seq<Seq<char>>, p: Seq<Seq<char>>, y: Seq<char>)
    requires
        is_path(mods, seeds, p),
        edge(mods, p.last(), y),
    ensures
        is_path(mods, seeds, p.push(y)),
        p.push(y).last() == y,
{
    let q = p.push(y);
    assert forall|i: int| 0 <= i < q.len() - 1 implies #[trigger] step(mods, q, i) by {
        if i < p.len() - 1 {
            assert(step(mods, p, i));
            assert(q[i] == p[i] && q[i + 1] == p[i + 1]);
        } else {
            assert(q[i] == p.last());
        }
    }
}

proof fn lemma_contains_push(s: Seq<Seq<char>>, a: Seq<char>, x: Seq<char>)
    ensures
        s.push(a).contains(x) <==> (s.contains(x) || x == a),
{
    if s.push(a).contains(x) {
        let k = choose|k: int| 0 <= k < s.push(a).len() && s.push(a)[k] == x;
        if k < s.len() {
            assert(s[k] == x);
        }
    }
    if s.contains(x) {
        let k = choose|k: int| 0 <= k < s.len() && s[k] == x;
        assert(s.push(a)[k] == x);
    }
    if x == a {
        assert(s.push(a)[s.len() as int] == x);
    }
}

proof fn lemma_seed_reachable(mods: Seq<Module>, seeds: Seq<Seq<char>>, x: Seq<char>)
    requires
        seeds.contains(x),
    ensures
        reachable(mods, seeds, x),
{
    let p = seq![x];
    assert(p[0] == x);
    assert(p.last() == x);
    assert(is_path(mods, seeds, p));
}

/// Everything reachable from `seeds`, following both halves of the use
/// graph: each name once and in name order, the seeds among them, nothing
/// that is not reached.
///
/// A file is the targets and their dependencies. Emitting more is not a
/// kindness: an unrelated module in the file is one a synthesizer will
/// elaborate, a linter will check, and a reader will wonder about.
pub fn closure(modules: &Vec<Module>, seeds: &Vec<String>) -> (r: Vec<String>)
    ensures
        names(r@).no_duplicates(),
        crate::sort::strictly_sorted(names(r@)),
        forall|x: Seq<char>| names(seeds@).contains(x) ==> #[trigger] names(r@).contains(x),
        forall|x: Seq<char>, y: Seq<char>| #[trigger] names(r@).contains(x) && #[trigger] edge(modules@, x, y) ==> names(r@).contains(y),
        forall|x: Seq<char>| #[trigger] names(r@).contains(x) ==> reachable(modules@, names(seeds@), x),
{
    let ghost mods = modules@;
    let ghost sd = names(seeds@);
    let ghost u = sd + all_succs(mods);
    let mut seen: Vec<String> = Vec::new();
    let mut queue: Vec<String> = Vec::new();
    let mut i: usize = 0;
    while i < seeds.len()
        invariant
            i <= seeds@.len(),
            sd == names(seeds@),
            names(queue@) == sd.take(i as int),
        decreases seeds@.len() - i,
    {
        let ghost before = queue@;
        queue.push(seeds[i].clone());
        proof {
            lemma_names_push(before, queue@.last());
            assert(names(queue@) =~= sd.take(i + 1));
        }
        i = i + 1;
    }
    proof {
        assert(sd.take(i as int) =~= sd);
        assert forall|x: Seq<char>| names(queue@).contains(x) implies reachable(mods, sd, x) by {
            lemma_seed_reachable(mods, sd, x);
        }
        assert forall|x: Seq<char>| names(queue@).contains(x) implies u.contains(x) by {
            let k = choose|k: int| 0 <= k < sd.len() && sd[k] == x;
            assert(u[k] == x);
        }
    }
    while queue.len() > 0
        invariant
            mods == modules@,
            sd == names(seeds@),
            u == sd + all_succs(mods),
            names(seen@).no_duplicates(),
            forall|x: Seq<char>| #[trigger] names(seen@).contains(x) ==> reachable(mods, sd, x) && u.contains(x),
            forall|x: Seq<char>| #[trigger] names(queue@).contains(x) ==> reachable(mods, sd, x) && u.contains(x),
            forall|x: Seq<char>| sd.contains(x) ==> names(seen@).contains(x) || names(queue@).contains(x),
            forall|x: Seq<char>, y: Seq<char>| #[trigger] names(seen@).contains(x) && #[trigger] edge(mods, x, y)
                ==> names(seen@).contains(y) || names(queue@).contains(y),
        decreases count_unseen(u, names(seen@)), queue@.len(),
    {
        let ghost q0 = queue@;
        let ghost s0 = seen@;
        let name = queue.pop().unwrap();
        proof {
            assert(q0 == queue@.push(name));
            lemma_names_push(queue@, name);
            assert(names(q0).contains(name@)) by {
                assert(names(q0)[q0.len() - 1] == name@);
            }
            assert(reachable(mods, sd, name@) && u.contains(name@));
            lemma_module_named(mods, name@);
            assert forall|x: Seq<char>| names(q0).contains(x) implies names(queue@).contains(x) || x == name@ by {
                let k = choose|k: int| 0 <= k < names(q0).len() && names(q0)[k] == x;
                if k < queue@.len() {
                    assert(names(queue@)[k] == x);
                }
            }
        }
        if !contains_name(&seen, &name) {
            seen.push(name.clone());
            proof {
                lemma_names_push(s0, seen@.last());
                lemma_count_push(u, names(s0), name@);
                assert(names(seen@)[s0.len() as int] == name@);
                assert(names(seen@) == names(s0).push(name@));
                assert forall|x: Seq<char>| #[trigger] names(seen@).contains(x) implies names(s0).contains(x) || x == name@ by {
                    lemma_contains_push(names(s0), name@, x);
                }
                assert forall|x: Seq<char>| #[trigger] names(s0).contains(x) implies names(seen@).contains(x) by {
                    lemma_contains_push(names(s0), name@, x);
                }
                assert forall|x: Seq<char>| #[trigger] names(queue@).contains(x) implies names(q0).contains(x) by {
                    let k = choose|k: int| 0 <= k < names(queue@).len() && names(queue@)[k] == x;
                    assert(names(q0)[k] == x);
                }
            }
            match find_module(modules, &name) {
                None => {
                    proof {
                        assert forall|x: Seq<char>| #[trigger] names(queue@).contains(x) implies reachable(mods, sd, x) && u.contains(x) by {
                            assert(names(q0).contains(x));
                        }
                        assert forall|x: Seq<char>, y: Seq<char>| #[trigger] names(seen@).contains(x) && #[trigger] edge(mods, x, y)
                            implies names(seen@).contains(y) || names(queue@).contains(y) by {
                            if x != name@ {
                                assert(names(s0).contains(x));
                                if names(queue@).contains(y) {
                                } else if names(s0).contains(y) {
                                    let k = choose|k: int| 0 <= k < names(s0).len() && names(s0)[k] == y;
                                    assert(names(seen@)[k] == y);
                                } else {
                                    assert(y == name@);
                                }
                            }
                        }
                        assert forall|x: Seq<char>| names(seen@).contains(x) implies reachable(mods, sd, x) && u.contains(x) by {
                            if x != name@ {
                                assert(names(s0).contains(x));
                            }
                        }
                        assert forall|x: Seq<char>| sd.contains(x) implies names(seen@).contains(x) || names(queue@).contains(x) by {
                            if names(s0).contains(x) {
                                let k = choose|k: int| 0 <= k < names(s0).len() && names(s0)[k] == x;
                                assert(names(seen@)[k] == x);
                            }
                        }
                    }
                },
                Some(mi) => {
                    let ghost qb = queue@;
                    push_succs(&modules[mi], &mut queue);
                    proof {
                        let ss = succs(mods[mi as int]);
                        assert(names(queue@) == names(qb) + ss);
                        assert forall|x: Seq<char>| #[trigger] names(queue@).contains(x) implies reachable(mods, sd, x) && u.contains(x) by {
                            let k = choose|k: int| 0 <= k < names(queue@).len() && names(queue@)[k] == x;
                            if k < names(qb).len() {
                                assert(names(qb)[k] == x);
                                assert(names(q0)[k] == x);
                                assert(names(q0).contains(x));
                            } else {
                                assert(ss[k - names(qb).len()] == x);
                                assert(ss.contains(x));
                                assert(edge(mods, name@, x));
                                let p = choose|p: Seq<Seq<char>>| is_path(mods, sd, p) && p.last() == name@;
                                lemma_path_extend(mods, sd, p, x);
                                assert(is_path(mods, sd, p.push(x)) && p.push(x).last() == x);
                                lemma_all_succs(mods, mi as int, x);
                                let j = choose|j: int| 0 <= j < all_succs(mods).len() && all_succs(mods)[j] == x;
                                assert(u[sd.len() + j] == x);
                            }
                        }
                        assert forall|x: Seq<char>| names(qb).contains(x) implies names(queue@).contains(x) by {
                            let k = choose|k: int| 0 <= k < names(qb).len() && names(qb)[k] == x;
                            assert(names(queue@)[k] == x);
                        }
                        assert forall|x: Seq<char>, y: Seq<char>| #[trigger] names(seen@).contains(x) && #[trigger] edge(mods, x, y)
                            implies names(seen@).contains(y) || names(queue@).contains(y) by {
                            if x == name@ {
                                let k = choose|k: int| 0 <= k < ss.len() && ss[k] == y;
                                assert(names(queue@)[names(qb).len() + k] == y);
                            } else {
                                assert(names(s0).contains(x));
                                if names(qb).contains(y) {
                                } else if names(s0).contains(y) {
                                    let k = choose|k: int| 0 <= k < names(s0).len() && names(s0)[k] == y;
                                    assert(names(seen@)[k] == y);
                                } else {
                                    assert(y == name@);
                                }
                            }
                        }
                        assert forall|x: Seq<char>| names(seen@).contains(x) implies reachable(mods, sd, x) && u.contains(x) by {
                            if x != name@ {
                                assert(names(s0).contains(x));
                            }
                        }
                        assert forall|x: Seq<char>| sd.contains(x) implies names(seen@).contains(x) || names(queue@).contains(x) by {
                            if names(s0).contains(x) {
                                let k = choose|k: int| 0 <= k < names(s0).len() && names(s0)[k] == x;
                                assert(names(seen@)[k] == x);
                            }
                        }
                    }
                },
            }
        } else {
            proof {
                assert forall|x: Seq<char>, y: Seq<char>| #[trigger] names(seen@).contains(x) && #[trigger] edge(mods, x, y)
                    implies names(seen@).contains(y) || names(queue@).contains(y) by {}
                assert forall|x: Seq<char>| #[trigger] names(queue@).contains(x) implies reachable(mods, sd, x) && u.contains(x) by {
                    let k = choose|k: int| 0 <= k < names(queue@).len() && names(queue@)[k] == x;
                    assert(names(q0)[k] == x);
                    assert(names(q0).contains(x));
                }
            }
        }
    }
    let r = sort_distinct(&seen);
    proof {
        crate::sort::law_sorted_distinct_orders_each_once(names(seen@));
        assert forall|a: int, b: int| 0 <= a < b < names(r@).len() implies names(r@)[a] != names(r@)[b] by {
            crate::sort::lemma_lex_irreflexive(names(r@)[a]);
        }
    }
    r
}

/// What `closure` answers is exactly the set of names reachable from the
/// seeds: its three promises -- the seeds are in it, it is closed under the
/// use graph, everything in it is reached -- leave no other set.
pub proof fn law_closure_is_the_reachable_set(mods: Seq<Module>, seeds: Seq<Seq<char>>, r: Seq<Seq<char>>)
    requires
        forall|x: Seq<char>| seeds.contains(x) ==> #[trigger] r.contains(x),
        forall|x: Seq<char>, y: Seq<char>| #[trigger] r.contains(x) && #[trigger] edge(mods, x, y) ==> r.contains(y),
        forall|x: Seq<char>| #[trigger] r.contains(x) ==> reachable(mods, seeds, x),
    ensures
        forall|x: Seq<char>| #[trigger] r.contains(x) <==> reachable(mods, seeds, x),
{
    assert forall|x: Seq<char>| #[trigger] r.contains(x) <==> reachable(mods, seeds, x) by {
        if reachable(mods, seeds, x) {
            let p = choose|p: Seq<Seq<char>>| is_path(mods, seeds, p) && p.last() == x;
            lemma_path_inside(mods, seeds, r, p, p.len() - 1);
        }
    }
}

/// Every name on a path from a seed lies in a closed set holding the seeds.
proof fn lemma_path_inside(mods: Seq<Module>, seeds: Seq<Seq<char>>, r: Seq<Seq<char>>, p: Seq<Seq<char>>, i: int)
    requires
        forall|x: Seq<char>| seeds.contains(x) ==> #[trigger] r.contains(x),
        forall|x: Seq<char>, y: Seq<char>| #[trigger] r.contains(x) && #[trigger] edge(mods, x, y) ==> r.contains(y),
        is_path(mods, seeds, p),
        0 <= i < p.len(),
    ensures
        r.contains(p[i]),
    decreases i,
{
    if i > 0 {
        lemma_path_inside(mods, seeds, r, p, i - 1);
        assert(step(mods, p, i - 1));
        assert(edge(mods, p[i - 1], p[i]));
    }
}

/// Names in backticks, a comma between each two: "`a`, `b`".
pub open spec fn listing(ns: Seq<Seq<char>>) -> Seq<char>
    decreases ns.len(),
{
    if ns.len() == 0 {
        Seq::empty()
    } else {
        listing(ns.drop_last()) + (if ns.len() > 1 { ", "@ } else { Seq::empty() }) + "`"@ + ns.last() + "`"@
    }
}

/// The names of the modules, in order.
pub open spec fn module_names(mods: Seq<Module>) -> Seq<Seq<char>> {
    Seq::new(mods.len(), |i: int| mods[i].name@)
}

/// The first of `ns` that `known` lacks, or -1.
pub open spec fn first_missing(ns: Seq<Seq<char>>, known: Seq<Seq<char>>) -> int
    decreases ns.len(),
{
    if ns.len() == 0 {
        -1
    } else {
        let r = first_missing(ns.drop_last(), known);
        if r >= 0 {
            r
        } else if !known.contains(ns.last()) {
            ns.len() - 1
        } else {
            -1
        }
    }
}

/// The first of `ns` that `other` also holds, or -1.
pub open spec fn first_shared(ns: Seq<Seq<char>>, other: Seq<Seq<char>>) -> int
    decreases ns.len(),
{
    if ns.len() == 0 {
        -1
    } else {
        let r = first_shared(ns.drop_last(), other);
        if r >= 0 {
            r
        } else if other.contains(ns.last()) {
            ns.len() - 1
        } else {
            -1
        }
    }
}

/// What `resolve` decides: the names to keep and to wrap, or an error's
/// message and note.
pub open spec fn resolve_spec(mods: Seq<Module>, cands: Seq<Seq<char>>, export: Seq<Seq<char>>, bare: Seq<Seq<char>>) -> Result<(Seq<Seq<char>>, Seq<Seq<char>>), (Seq<char>, Seq<char>)> {
    let known = module_names(mods);
    let flagged = export + bare;
    let missing = first_missing(flagged, known);
    let shared = first_shared(export, bare);
    let found = roots_upto(mods, cands, mods.len() as int);
    if missing >= 0 {
        Err(("no module named `"@ + flagged[missing] + "` in this compilation"@, "it emits: "@ + listing(sorted_distinct(known))))
    } else if shared >= 0 {
        Err(("`"@ + export[shared] + "` is given to both --export and --bare-export"@,
            "a module presents one interface or the other, not both"@))
    } else if flagged.len() > 0 {
        // Both flags name something the build is FOR; they differ only in
        // the interface it presents.
        Ok((flagged, export))
    } else if found.len() == 0 {
        // Nothing is a root: there is no target to narrow to, so the whole
        // compilation is emitted as it lowers.
        Ok((known, Seq::empty()))
    } else if found.len() == 1 {
        Ok((found, found))
    } else {
        Err(("several modules could be exported: "@ + listing(sorted(found)),
            "name the ones you want with `--export <a>,<b>`, or keep the salt ports with `--bare-export <a>`"@))
    }
}

/// The names in backticks, a comma between each two.
fn backticked(v: &Vec<String>) -> (s: String)
    ensures
        s@ == listing(names(v@)),
{
    let ghost n = names(v@);
    let mut s = String::new();
    let mut i: usize = 0;
    while i < v.len()
        invariant
            i <= v@.len(),
            n == names(v@),
            s@ == listing(n.take(i as int)),
        decreases v@.len() - i,
    {
        proof {
            assert(n.take(i + 1).drop_last() =~= n.take(i as int));
            assert(n.take(i + 1).last() == v@[i as int]@);
        }
        if i > 0 {
            s.append(", ");
        }
        s.append("`");
        s.append(v[i].as_str());
        s.append("`");
        i = i + 1;
    }
    proof {
        assert(n.take(i as int) =~= n);
    }
    s
}

/// A copy of each string, in order.
fn copy_names(v: &Vec<String>) -> (r: Vec<String>)
    ensures
        names(r@) == names(v@),
{
    let mut r: Vec<String> = Vec::new();
    let mut i: usize = 0;
    while i < v.len()
        invariant
            i <= v@.len(),
            names(r@) == names(v@).take(i as int),
        decreases v@.len() - i,
    {
        let ghost before = r@;
        r.push(v[i].clone());
        proof {
            lemma_names_push(before, r@.last());
            assert(names(r@) =~= names(v@).take(i + 1));
        }
        i = i + 1;
    }
    proof {
        assert(names(v@).take(i as int) =~= names(v@));
    }
    r
}

/// Decides what to emit and what to wrap.
///
/// Explicit flags win. With no flag and one root, that root. With no flag and
/// several, an error that names them: which module the file is for is the
/// author's to say, and picking one silently is how a build ends up shipping
/// the wrong top level. See `resolve_spec`.
pub fn resolve(modules: &Vec<Module>, candidates: &Vec<String>, flags: &ExportFlags) -> (r: Result<Exports, Diag>)
    ensures
        match resolve_spec(modules@, names(candidates@), names(flags.export@), names(flags.bare@)) {
            Ok((keep, wrap)) => r is Ok && names(r->Ok_0.keep@) == keep && names(r->Ok_0.wrap@) == wrap,
            Err((msg, note)) => r is Err && r->Err_0.severity == crate::diag::Severity::Error && r->Err_0.span is None
                && r->Err_0.msg@ == msg && r->Err_0.note is Some && r->Err_0.note->0@ == note,
        },
{
    let ghost export = names(flags.export@);
    let ghost bare = names(flags.bare@);
    let ghost flagged = export + bare;
    let mut known: Vec<String> = Vec::new();
    let mut i: usize = 0;
    while i < modules.len()
        invariant
            i <= modules@.len(),
            names(known@) == module_names(modules@).take(i as int),
        decreases modules@.len() - i,
    {
        let ghost before = known@;
        known.push(modules[i].name.clone());
        proof {
            lemma_names_push(before, known@.last());
            assert(names(known@) =~= module_names(modules@).take(i + 1));
        }
        i = i + 1;
    }
    proof {
        assert(module_names(modules@).take(i as int) =~= module_names(modules@));
    }
    proof {
        assert(flagged.take(0) =~= Seq::<Seq<char>>::empty());
    }
    let mut i: usize = 0;
    while i < flags.export.len()
        invariant
            flagged == names(flags.export@) + names(flags.bare@),
            names(known@) == module_names(modules@),
            i <= flags.export@.len(),
            first_missing(flagged.take(i as int), names(known@)) < 0,
        decreases flags.export@.len() - i,
    {
        let name = &flags.export[i];
        proof {
            assert(name@ == flagged[i as int]);
            assert(flagged.take(i + 1).drop_last() =~= flagged.take(i as int));
        }
        if !holds_name(&known, name) {
            proof {
                lemma_first_missing_prefix(flagged, names(known@), i as int);
            }
            let mut msg = String::from_str("no module named `");
            msg.append(name.as_str());
            msg.append("` in this compilation");
            let mut note = String::from_str("it emits: ");
            note.append(backticked(&sort_distinct(&known)).as_str());
            return Err(Diag::error_no_span(msg).with_note(note));
        }
        i = i + 1;
    }
    let mut j: usize = 0;
    while j < flags.bare.len()
        invariant
            flagged == names(flags.export@) + names(flags.bare@),
            names(known@) == module_names(modules@),
            j <= flags.bare@.len(),
            first_missing(flagged.take(flags.export@.len() + j), names(known@)) < 0,
        decreases flags.bare@.len() - j,
    {
        let name = &flags.bare[j];
        let ghost at = flags.export@.len() + j;
        proof {
            assert(name@ == flagged[at]);
            assert(flagged.take(at + 1).drop_last() =~= flagged.take(at));
        }
        if !holds_name(&known, name) {
            proof {
                lemma_first_missing_prefix(flagged, names(known@), at);
            }
            let mut msg = String::from_str("no module named `");
            msg.append(name.as_str());
            msg.append("` in this compilation");
            let mut note = String::from_str("it emits: ");
            note.append(backticked(&sort_distinct(&known)).as_str());
            return Err(Diag::error_no_span(msg).with_note(note));
        }
        j = j + 1;
    }
    proof {
        assert(flagged.take(flags.export@.len() + j) =~= flagged);
    }
    let mut i: usize = 0;
    proof {
        assert(export.take(0) =~= Seq::<Seq<char>>::empty());
    }
    while i < flags.export.len()
        invariant
            i <= export.len(),
            export == names(flags.export@),
            bare == names(flags.bare@),
            first_missing(export + bare, module_names(modules@)) < 0,
            names(known@) == module_names(modules@),
            first_shared(export.take(i as int), bare) < 0,
        decreases export.len() - i,
    {
        proof {
            assert(export.take(i + 1).drop_last() =~= export.take(i as int));
        }
        if holds_name(&flags.bare, &flags.export[i]) {
            proof {
                lemma_first_shared_prefix(export, bare, i as int);
                assert(export[i as int] == flags.export@[i as int]@);
                assert(first_missing(export + bare, module_names(modules@)) < 0);
            }
            let mut msg = String::from_str("`");
            msg.append(flags.export[i].as_str());
            msg.append("` is given to both --export and --bare-export");
            return Err(Diag::error_no_span(msg).with_note(String::from_str("a module presents one interface or the other, not both")));
        }
        i = i + 1;
    }
    proof {
        assert(export.take(i as int) =~= export);
    }
    if !flags.is_empty() {
        let mut keep = copy_names(&flags.export);
        let mut j: usize = 0;
        let ghost k0 = names(keep@);
        while j < flags.bare.len()
            invariant
                j <= bare.len(),
                bare == names(flags.bare@),
                names(keep@) == k0 + bare.take(j as int),
            decreases bare.len() - j,
        {
            let ghost before = keep@;
            keep.push(flags.bare[j].clone());
            proof {
                lemma_names_push(before, keep@.last());
                assert(names(keep@) =~= k0 + bare.take(j + 1));
            }
            j = j + 1;
        }
        proof {
            assert(bare.take(j as int) =~= bare);
        }
        return Ok(Exports { keep, wrap: copy_names(&flags.export) });
    }
    let found = roots(modules, candidates);
    if found.len() == 0 {
        Ok(Exports { keep: known, wrap: Vec::new() })
    } else if found.len() == 1 {
        Ok(Exports { keep: copy_names(&found), wrap: found })
    } else {
        let mut msg = String::from_str("several modules could be exported: ");
        msg.append(backticked(&sort_names(&found)).as_str());
        Err(Diag::error_no_span(msg).with_note(String::from_str(
            "name the ones you want with `--export <a>,<b>`, or keep the salt ports with `--bare-export <a>`",
        )))
    }
}

/// Whether `v` holds a string with the text of `x`.
fn holds_name(v: &Vec<String>, x: &String) -> (r: bool)
    ensures
        r == names(v@).contains(x@),
{
    contains_name(v, x)
}

proof fn lemma_first_missing_prefix(ns: Seq<Seq<char>>, known: Seq<Seq<char>>, i: int)
    requires
        0 <= i < ns.len(),
        first_missing(ns.take(i), known) < 0,
        !known.contains(ns[i]),
    ensures
        first_missing(ns, known) == i,
{
    lemma_first_missing_from(ns, known, i, ns.len() as int);
    assert(ns.take(ns.len() as int) =~= ns);
}

proof fn lemma_first_missing_from(ns: Seq<Seq<char>>, known: Seq<Seq<char>>, i: int, k: int)
    requires
        0 <= i < k <= ns.len(),
        first_missing(ns.take(i), known) < 0,
        !known.contains(ns[i]),
    ensures
        first_missing(ns.take(k), known) == i,
    decreases k - i,
{
    if k == i + 1 {
        assert(ns.take(k).drop_last() =~= ns.take(i));
    } else {
        lemma_first_missing_from(ns, known, i, k - 1);
        assert(ns.take(k).drop_last() =~= ns.take(k - 1));
    }
    if k == ns.len() {
        assert(ns.take(k) =~= ns);
    }
}

proof fn lemma_first_shared_prefix(ns: Seq<Seq<char>>, other: Seq<Seq<char>>, i: int)
    requires
        0 <= i < ns.len(),
        first_shared(ns.take(i), other) < 0,
        other.contains(ns[i]),
    ensures
        first_shared(ns, other) == i,
{
    lemma_first_shared_from(ns, other, i, ns.len() as int);
    assert(ns.take(ns.len() as int) =~= ns);
}

proof fn lemma_first_shared_from(ns: Seq<Seq<char>>, other: Seq<Seq<char>>, i: int, k: int)
    requires
        0 <= i < k <= ns.len(),
        first_shared(ns.take(i), other) < 0,
        other.contains(ns[i]),
    ensures
        first_shared(ns.take(k), other) == i,
    decreases k - i,
{
    if k == i + 1 {
        assert(ns.take(k).drop_last() =~= ns.take(i));
    } else {
        lemma_first_shared_from(ns, other, i, k - 1);
        assert(ns.take(k).drop_last() =~= ns.take(k - 1));
    }
}

pub open spec fn dir_of(is_input: bool) -> PortDir {
    if is_input {
        PortDir::In
    } else {
        PortDir::Out
    }
}

/// A port as its name, direction and type.
pub open spec fn port_view(p: Port) -> (Seq<char>, PortDir, Ty) {
    (p.name@, p.dir, p.ty)
}

pub open spec fn net_view(n: Net) -> (Seq<char>, Ty) {
    (n.name@, n.ty)
}

pub open spec fn conn_views(c: Seq<(String, String)>) -> Seq<(Seq<char>, Seq<char>)> {
    c.map_values(|x: (String, String)| (x.0@, x.1@))
}

/// An instance as the module it builds, its own name and its connections.
pub open spec fn inst_view(i: Instance) -> (Seq<char>, Seq<char>, Seq<(Seq<char>, Seq<char>)>) {
    (i.module@, i.name@, conn_views(i.conns@))
}

/// `<pipe>_<suffix>`.
pub open spec fn under(name: Seq<char>, suffix: Seq<char>) -> Seq<char> {
    name + "_"@ + suffix
}

/// The adapter that fronts one pipe of a target.
pub open spec fn pipe_kind(p: PipeSig) -> Adapt {
    adapt_at(p.is_input, false)
}

/// The FIFO face of one pipe, outward: the flag this module answers, the
/// `go` it is told, and the data, going the way the items go.
pub open spec fn face_ports(p: PipeSig) -> Seq<(Seq<char>, PortDir, Ty)> {
    let f = adapt_face(pipe_kind(p));
    seq![
        (under(p.name@, f[0]), PortDir::Out, bool_ty()),
        (under(p.name@, f[1]), PortDir::In, bool_ty()),
        (under(p.name@, f[2]), dir_of(p.is_input), p.ty),
    ]
}

/// The wrapper's ports for one parameter.
pub open spec fn arg_ports(a: ArgSig) -> Seq<(Seq<char>, PortDir, Ty)> {
    match a {
        ArgSig::Wire(w) => seq![(w.name@, dir_of(w.is_input), w.ty)],
        ArgSig::Pipe(p) => face_ports(p),
    }
}

/// The salt legs of one pipe, which stay inside the wrapper.
pub open spec fn arg_nets(a: ArgSig) -> Seq<(Seq<char>, Ty)> {
    match a {
        ArgSig::Wire(_) => Seq::empty(),
        ArgSig::Pipe(p) => seq![
            (under(p.name@, "wsalt"@), salt_ty()),
            (under(p.name@, "rsalt"@), salt_ty()),
            (under(p.name@, "data"@), Ty::Array(Box::new(p.ty), 2)),
        ],
    }
}

/// What the core's instance connects for one parameter: each leg to the net
/// of the same name.
pub open spec fn arg_core_conns(a: ArgSig) -> Seq<(Seq<char>, Seq<char>)> {
    match a {
        ArgSig::Wire(w) => seq![(w.name@, w.name@)],
        ArgSig::Pipe(p) => seq![
            (under(p.name@, "wsalt"@), under(p.name@, "wsalt"@)),
            (under(p.name@, "rsalt"@), under(p.name@, "rsalt"@)),
            (under(p.name@, "data"@), under(p.name@, "data"@)),
        ],
    }
}

/// The adapter instance in front of one pipe.
pub open spec fn adapter_inst(p: PipeSig) -> (Seq<char>, Seq<char>, Seq<(Seq<char>, Seq<char>)>) {
    let k = pipe_kind(p);
    let f = adapt_face(k);
    let salt = salt_pipe_name(k);
    (
        adapt_name(k, width(p.ty)),
        "u_"@ + p.name@ + "_adapt"@,
        seq![
            ("clk"@, "clk"@),
            ("rst_n"@, "rst_n"@),
            (under(salt, "wsalt"@), under(p.name@, "wsalt"@)),
            (under(salt, "rsalt"@), under(p.name@, "rsalt"@)),
            (under(salt, "data"@), under(p.name@, "data"@)),
            (f[0], under(p.name@, f[0])),
            (f[1], under(p.name@, f[1])),
            (f[2], under(p.name@, f[2])),
        ],
    )
}

pub open spec fn arg_insts(a: ArgSig) -> Seq<(Seq<char>, Seq<char>, Seq<(Seq<char>, Seq<char>)>)> {
    match a {
        ArgSig::Wire(_) => Seq::empty(),
        ArgSig::Pipe(p) => seq![adapter_inst(p)],
    }
}

/// One of the per-parameter pieces above, over every parameter in order.
pub open spec fn each_ports(args: Seq<ArgSig>) -> Seq<(Seq<char>, PortDir, Ty)>
    decreases args.len(),
{
    if args.len() == 0 { Seq::empty() } else { each_ports(args.drop_last()) + arg_ports(args.last()) }
}

pub open spec fn each_nets(args: Seq<ArgSig>) -> Seq<(Seq<char>, Ty)>
    decreases args.len(),
{
    if args.len() == 0 { Seq::empty() } else { each_nets(args.drop_last()) + arg_nets(args.last()) }
}

pub open spec fn each_core_conns(args: Seq<ArgSig>) -> Seq<(Seq<char>, Seq<char>)>
    decreases args.len(),
{
    if args.len() == 0 { Seq::empty() } else { each_core_conns(args.drop_last()) + arg_core_conns(args.last()) }
}

pub open spec fn each_insts(args: Seq<ArgSig>) -> Seq<(Seq<char>, Seq<char>, Seq<(Seq<char>, Seq<char>)>)>
    decreases args.len(),
{
    if args.len() == 0 { Seq::empty() } else { each_insts(args.drop_last()) + arg_insts(args.last()) }
}

/// Every pipe parameter's payload fits a width.
pub open spec fn pipes_sized(args: Seq<ArgSig>) -> bool {
    forall|i: int| 0 <= i < args.len() ==> (#[trigger] args[i] matches ArgSig::Pipe(p) ==> width(p.ty) <= u32::MAX)
}

/// `u` is one use of `kind` carrying `ty`.
pub open spec fn use_is(u: AdaptUse, kind: Adapt, ty: Ty) -> bool {
    u.kind == kind && same_ty(u.ty, ty)
}

proof fn lemma_conn_views_push(c: Seq<(String, String)>, x: (String, String))
    ensures
        conn_views(c.push(x)) == conn_views(c).push((x.0@, x.1@)),
{
    assert(conn_views(c.push(x)) =~= conn_views(c).push((x.0@, x.1@)));
}

/// Pushes a connection of `a` to `b`.
fn connect(conns: &mut Vec<(String, String)>, a: String, b: String)
    ensures
        conn_views(final(conns)@) == conn_views(old(conns)@).push((a@, b@)),
{
    let ghost before = conns@;
    let ghost av = a@;
    let ghost bv = b@;
    conns.push((a, b));
    proof {
        lemma_conn_views_push(before, conns@.last());
    }
}

/// `<name>_<suffix>`.
fn under_of(name: &String, suffix: &str) -> (r: String)
    ensures
        r@ == under(name@, suffix@),
{
    let mut r = name.clone();
    r.append("_");
    r.append(suffix);
    r
}

/// Records that one adapter shape is needed, unless it already is.
/// Every use from `from` on is of a shape no earlier use has.
pub open spec fn fresh_from(s: Seq<AdaptUse>, from: int) -> bool {
    forall|j: int, i: int| from <= j < s.len() && 0 <= i < j ==> !use_is(#[trigger] s[i], #[trigger] s[j].kind, s[j].ty)
}

fn note_adapter(adapts: &mut Vec<AdaptUse>, kind: Adapt, ty: &Ty)
    ensures
        fresh_from(final(adapts)@, old(adapts)@.len() as int),
        final(adapts)@.len() >= old(adapts)@.len(),
        final(adapts)@.take(old(adapts)@.len() as int) == old(adapts)@,
        exists|i: int| 0 <= i < final(adapts)@.len() && use_is(#[trigger] final(adapts)@[i], kind, *ty),
        forall|i: int| old(adapts)@.len() <= i < final(adapts)@.len() ==> #[trigger] final(adapts)@[i] == (AdaptUse { kind, ty: *ty }),
{
    let mut i: usize = 0;
    while i < adapts.len()
        invariant
            i <= adapts@.len(),
            forall|j: int| 0 <= j < i ==> !use_is(#[trigger] adapts@[j], kind, *ty),
        decreases adapts@.len() - i,
    {
        if adapts[i].kind == kind && adapts[i].ty.same(ty) {
            proof {
                assert(use_is(adapts@[i as int], kind, *ty));
                assert(adapts@.take(adapts@.len() as int) =~= adapts@);
            }
            return;
        }
        i = i + 1;
    }
    adapts.push(AdaptUse { kind, ty: ty.clone() });
    proof {
        assert(adapts@.take(old(adapts)@.len() as int) =~= old(adapts)@);
        crate::ty::lemma_same_ty_refl(*ty);
        assert(use_is(adapts@[old(adapts)@.len() as int], kind, *ty));
        assert forall|j: int, i: int| old(adapts)@.len() <= j < adapts@.len() && 0 <= i < j
            implies !use_is(#[trigger] adapts@[i], #[trigger] adapts@[j].kind, adapts@[j].ty) by {
            assert(adapts@[i] == old(adapts)@[i]);
        }
    }
}

pub open spec fn ports_of(ps: Seq<Port>) -> Seq<(Seq<char>, PortDir, Ty)> {
    ps.map_values(|p: Port| port_view(p))
}

pub open spec fn nets_of(ns: Seq<Net>) -> Seq<(Seq<char>, Ty)> {
    ns.map_values(|n: Net| net_view(n))
}

pub open spec fn insts_of(is: Seq<Instance>) -> Seq<(Seq<char>, Seq<char>, Seq<(Seq<char>, Seq<char>)>)> {
    is.map_values(|i: Instance| inst_view(i))
}

/// Every instance the wrapper builds drives no pipe of its own.
pub open spec fn produce_nothing(is: Seq<Instance>) -> bool {
    forall|i: int| 0 <= i < is.len() ==> (#[trigger] is[i]).produces@.len() == 0
}

fn push_port(ports: &mut Vec<Port>, name: String, dir: PortDir, ty: Ty)
    ensures
        ports_of(final(ports)@) == ports_of(old(ports)@).push((name@, dir, ty)),
{
    let ghost before = ports@;
    ports.push(Port { name, dir, ty });
    proof {
        assert(ports_of(ports@) =~= ports_of(before).push(port_view(ports@.last())));
    }
}

fn push_net(nets: &mut Vec<Net>, name: String, ty: Ty)
    ensures
        nets_of(final(nets)@) == nets_of(old(nets)@).push((name@, ty)),
{
    let ghost before = nets@;
    nets.push(Net { name, ty });
    proof {
        assert(nets_of(nets@) =~= nets_of(before).push(net_view(nets@.last())));
    }
}

fn push_inst(insts: &mut Vec<Instance>, module: String, name: String, conns: Vec<(String, String)>)
    requires
        produce_nothing(old(insts)@),
    ensures
        insts_of(final(insts)@) == insts_of(old(insts)@).push((module@, name@, conn_views(conns@))),
        produce_nothing(final(insts)@),
{
    let ghost before = insts@;
    insts.push(Instance { module, name, conns, produces: Vec::new() });
    proof {
        assert(insts_of(insts@) =~= insts_of(before).push(inst_view(insts@.last())));
    }
}

/// The wrapper's parts for one pipe parameter: the FIFO face, the salt nets,
/// the adapter in between, and the core's connections to the nets.
fn wrap_pipe(
    p: &PipeSig,
    ports: &mut Vec<Port>,
    nets: &mut Vec<Net>,
    insts: &mut Vec<Instance>,
    core_conns: &mut Vec<(String, String)>,
    adapts: &mut Vec<AdaptUse>,
)
    requires
        width(p.ty) <= u32::MAX,
        produce_nothing(old(insts)@),
    ensures
        ports_of(final(ports)@) == ports_of(old(ports)@) + face_ports(*p),
        nets_of(final(nets)@) == nets_of(old(nets)@) + arg_nets(ArgSig::Pipe(*p)),
        insts_of(final(insts)@) == insts_of(old(insts)@).push(adapter_inst(*p)),
        produce_nothing(final(insts)@),
        conn_views(final(core_conns)@) == conn_views(old(core_conns)@) + arg_core_conns(ArgSig::Pipe(*p)),
        final(adapts)@.len() >= old(adapts)@.len(),
        final(adapts)@.take(old(adapts)@.len() as int) == old(adapts)@,
        fresh_from(final(adapts)@, old(adapts)@.len() as int),
        exists|i: int| 0 <= i < final(adapts)@.len() && use_is(#[trigger] final(adapts)@[i], pipe_kind(*p), p.ty),
        forall|i: int| old(adapts)@.len() <= i < final(adapts)@.len() ==> #[trigger] final(adapts)@[i] == (AdaptUse { kind: pipe_kind(*p), ty: p.ty }),
{
    proof {
        reveal_strlit("clk");
        reveal_strlit("rst_n");
    }
    let kind = Adapt::at(p.is_input, false);
    note_adapter(adapts, kind, &p.ty);
    let face = kind.face();
    let flag = face[0];
    let go = face[1];
    let data = face[2];
    let data_dir = if p.is_input { PortDir::In } else { PortDir::Out };
    let ghost p0 = ports_of(ports@);
    push_port(ports, under_of(&p.name, flag), PortDir::Out, bool_type());
    push_port(ports, under_of(&p.name, go), PortDir::In, bool_type());
    push_port(ports, under_of(&p.name, data), data_dir, p.ty.clone());
    proof {
        assert(ports_of(ports@) =~= p0 + face_ports(*p));
    }
    // The salt legs stay inside, which is the whole point.
    let ghost n0 = nets_of(nets@);
    push_net(nets, under_of(&p.name, "wsalt"), salt());
    push_net(nets, under_of(&p.name, "rsalt"), salt());
    push_net(nets, under_of(&p.name, "data"), Ty::Array(Box::new(p.ty.clone()), 2));
    proof {
        assert(nets_of(nets@) =~= n0 + arg_nets(ArgSig::Pipe(*p)));
    }
    let salt_name = String::from_str(kind.salt_pipe());
    let mut conns: Vec<(String, String)> = Vec::new();
    connect(&mut conns, String::from_str("clk"), String::from_str("clk"));
    connect(&mut conns, String::from_str("rst_n"), String::from_str("rst_n"));
    connect(&mut conns, under_of(&salt_name, "wsalt"), under_of(&p.name, "wsalt"));
    connect(&mut conns, under_of(&salt_name, "rsalt"), under_of(&p.name, "rsalt"));
    connect(&mut conns, under_of(&salt_name, "data"), under_of(&p.name, "data"));
    connect(&mut conns, String::from_str(flag), under_of(&p.name, flag));
    connect(&mut conns, String::from_str(go), under_of(&p.name, go));
    connect(&mut conns, String::from_str(data), under_of(&p.name, data));
    let mut inst_name = String::from_str("u_");
    inst_name.append(p.name.as_str());
    inst_name.append("_adapt");
    push_inst(insts, crate::ir_adapt::module_name(kind, &p.ty), inst_name, conns);
    proof {
        assert(conn_views(conns@) =~= adapter_inst(*p).2);
    }
    let ghost c0 = conn_views(core_conns@);
    connect(core_conns, under_of(&p.name, "wsalt"), under_of(&p.name, "wsalt"));
    connect(core_conns, under_of(&p.name, "rsalt"), under_of(&p.name, "rsalt"));
    connect(core_conns, under_of(&p.name, "data"), under_of(&p.name, "data"));
    proof {
        assert(conn_views(core_conns@) =~= c0 + arg_core_conns(ArgSig::Pipe(*p)));
    }
}

/// The wrapper's clock and reset, which every clocked module has.
pub open spec fn clock_ports() -> Seq<(Seq<char>, PortDir, Ty)> {
    seq![("clk"@, PortDir::In, bool_ty()), ("rst_n"@, PortDir::In, bool_ty())]
}

pub open spec fn clock_conns() -> Seq<(Seq<char>, Seq<char>)> {
    seq![("clk"@, "clk"@), ("rst_n"@, "rst_n"@)]
}

/// Some pipe parameter among `args` needs `u`.
pub open spec fn wanted_by(args: Seq<ArgSig>, u: AdaptUse) -> bool {
    exists|i: int| 0 <= i < args.len() && (#[trigger] args[i] matches ArgSig::Pipe(p) && u == (AdaptUse { kind: pipe_kind(p), ty: p.ty }))
}

/// `w` is the wrapper of `m` with interface `args`: the FIFO ports, the
/// salt nets and adapters of each pipe, one instance of `m`'s logic under
/// `<name>_core`, `m`'s parameters and nothing else.
pub open spec fn wrapper_of(w: Module, m: Module, args: Seq<ArgSig>) -> bool {
    let core = m.name@ + "_core"@;
    &&& w.name@ == m.name@
    &&& ports_of(w.ports@) == clock_ports() + each_ports(args)
    &&& nets_of(w.nets@) == each_nets(args)
    &&& insts_of(w.instances@) == each_insts(args).push((core, "u_"@ + core, clock_conns() + each_core_conns(args)))
    &&& produce_nothing(w.instances@)
    &&& w.values@.len() == 0
    &&& w.drivers@.len() == 0
    &&& w.regs@.len() == 0
    &&& w.mems@.len() == 0
    &&& w.asserts@.len() == 0
    &&& w.calls@.len() == 0
    &&& w.params@ == m.params@
}

/// Builds the wrapper for one target, and says what its logic is now called.
///
/// The wrapper computes nothing. It declares the FIFO ports, one set of salt
/// nets per pipe, an adapter to translate between them, and one instance of
/// the core. A `wire` needs none of that and is connected straight through.
/// Every adapter shape it needs is recorded in `adapts`, once.
pub fn wrap(module: &Module, sig: &BlockSig, adapts: &mut Vec<AdaptUse>) -> (r: (Module, String))
    requires
        pipes_sized(sig.args@),
    ensures
        r.1@ == module.name@ + "_core"@,
        r.0.name@ == module.name@,
        ports_of(r.0.ports@) == clock_ports() + each_ports(sig.args@),
        nets_of(r.0.nets@) == each_nets(sig.args@),
        insts_of(r.0.instances@) == each_insts(sig.args@).push((r.1@, "u_"@ + r.1@, clock_conns() + each_core_conns(sig.args@))),
        produce_nothing(r.0.instances@),
        r.0.values@.len() == 0,
        r.0.drivers@.len() == 0,
        r.0.regs@.len() == 0,
        r.0.mems@.len() == 0,
        r.0.asserts@.len() == 0,
        r.0.calls@.len() == 0,
        r.0.params@ == module.params@,
        final(adapts)@.len() >= old(adapts)@.len(),
        final(adapts)@.take(old(adapts)@.len() as int) == old(adapts)@,
        forall|i: int| 0 <= i < sig.args@.len() ==> (#[trigger] sig.args@[i] matches ArgSig::Pipe(p) ==> exists|j: int|
            0 <= j < final(adapts)@.len() && use_is(#[trigger] final(adapts)@[j], pipe_kind(p), p.ty)),
        forall|j: int| old(adapts)@.len() <= j < final(adapts)@.len() ==> wanted_by(sig.args@, #[trigger] final(adapts)@[j]),
        // Only shapes not recorded before are added, each once.
        fresh_from(final(adapts)@, old(adapts)@.len() as int),
        wrapper_of(r.0, *module, sig.args@),
{
    proof {
        reveal_strlit("clk");
        reveal_strlit("rst_n");
    }
    let core = suffixed(&module.name, "_core");
    let mut ports: Vec<Port> = Vec::new();
    let mut nets: Vec<Net> = Vec::new();
    let mut instances: Vec<Instance> = Vec::new();
    let mut core_conns: Vec<(String, String)> = Vec::new();
    push_port(&mut ports, String::from_str("clk"), PortDir::In, bool_type());
    push_port(&mut ports, String::from_str("rst_n"), PortDir::In, bool_type());
    connect(&mut core_conns, String::from_str("clk"), String::from_str("clk"));
    connect(&mut core_conns, String::from_str("rst_n"), String::from_str("rst_n"));
    proof {
        assert(ports_of(ports@) =~= clock_ports());
        assert(conn_views(core_conns@) =~= clock_conns());
        assert(sig.args@.take(0) =~= Seq::<ArgSig>::empty());
    }
    let ghost a0 = adapts@;
    let mut i: usize = 0;
    while i < sig.args.len()
        invariant
            i <= sig.args@.len(),
            pipes_sized(sig.args@),
            ports_of(ports@) == clock_ports() + each_ports(sig.args@.take(i as int)),
            nets_of(nets@) == each_nets(sig.args@.take(i as int)),
            insts_of(instances@) == each_insts(sig.args@.take(i as int)),
            produce_nothing(instances@),
            conn_views(core_conns@) == clock_conns() + each_core_conns(sig.args@.take(i as int)),
            adapts@.take(a0.len() as int) == a0,
            adapts@.len() >= a0.len(),
            forall|k: int| 0 <= k < i ==> (#[trigger] sig.args@[k] matches ArgSig::Pipe(p) ==> exists|j: int|
                0 <= j < adapts@.len() && use_is(#[trigger] adapts@[j], pipe_kind(p), p.ty)),
            forall|j: int| a0.len() <= j < adapts@.len() ==> wanted_by(sig.args@, #[trigger] adapts@[j]),
            fresh_from(adapts@, a0.len() as int),
        decreases sig.args@.len() - i,
    {
        let ghost t = sig.args@.take(i + 1);
        let ghost ab = adapts@;
        proof {
            assert(t.drop_last() =~= sig.args@.take(i as int));
            assert(t.last() == sig.args@[i as int]);
        }
        match &sig.args[i] {
            ArgSig::Wire(w) => {
                let ghost pb = ports_of(ports@);
                push_port(&mut ports, w.name.clone(), if w.is_input { PortDir::In } else { PortDir::Out }, w.ty.clone());
                connect(&mut core_conns, w.name.clone(), w.name.clone());
                proof {
                    assert(ports_of(ports@) =~= clock_ports() + each_ports(t));
                    assert(nets_of(nets@) =~= each_nets(t));
                    assert(insts_of(instances@) =~= each_insts(t));
                    assert(conn_views(core_conns@) =~= clock_conns() + each_core_conns(t));
                }
            },
            ArgSig::Pipe(p) => {
                proof {
                    assert(sig.args@[i as int] matches ArgSig::Pipe(q) ==> width(q.ty) <= u32::MAX);
                }
                wrap_pipe(p, &mut ports, &mut nets, &mut instances, &mut core_conns, adapts);
                proof {
                    assert(ports_of(ports@) =~= clock_ports() + each_ports(t));
                    assert(nets_of(nets@) =~= each_nets(t));
                    assert(insts_of(instances@) =~= each_insts(t));
                    assert(conn_views(core_conns@) =~= clock_conns() + each_core_conns(t));
                    assert(adapts@.take(a0.len() as int) =~= a0) by {
                        assert forall|k: int| 0 <= k < a0.len() implies adapts@[k] == a0[k] by {
                            assert(adapts@.take(ab.len() as int)[k] == ab[k]);
                            assert(ab.take(a0.len() as int)[k] == a0[k]);
                        }
                    }
                    assert forall|k: int| 0 <= k < i + 1 implies (#[trigger] sig.args@[k] matches ArgSig::Pipe(q) ==> exists|j: int|
                        0 <= j < adapts@.len() && use_is(#[trigger] adapts@[j], pipe_kind(q), q.ty)) by {
                        if k < i {
                            match sig.args@[k] {
                                ArgSig::Pipe(q) => {
                                    let j = choose|j: int| 0 <= j < ab.len() && use_is(#[trigger] ab[j], pipe_kind(q), q.ty);
                                    assert(adapts@.take(ab.len() as int)[j] == ab[j]);
                                    assert(use_is(adapts@[j], pipe_kind(q), q.ty));
                                },
                                _ => {},
                            }
                        }
                    }
                    assert forall|j: int, m: int| a0.len() <= j < adapts@.len() && 0 <= m < j
                        implies !use_is(#[trigger] adapts@[m], #[trigger] adapts@[j].kind, adapts@[j].ty) by {
                        if j < ab.len() {
                            assert(adapts@.take(ab.len() as int)[j] == ab[j]);
                            assert(adapts@.take(ab.len() as int)[m] == ab[m]);
                        }
                    }
                    assert forall|j: int| a0.len() <= j < adapts@.len() implies wanted_by(sig.args@, #[trigger] adapts@[j]) by {
                        if j < ab.len() {
                            assert(adapts@.take(ab.len() as int)[j] == ab[j]);
                        } else {
                            assert(sig.args@[i as int] matches ArgSig::Pipe(q) && adapts@[j] == (AdaptUse { kind: pipe_kind(q), ty: q.ty }));
                        }
                    }
                }
            },
        }
        i = i + 1;
    }
    proof {
        assert(sig.args@.take(i as int) =~= sig.args@);
    }
    let mut core_name = String::from_str("u_");
    core_name.append(core.as_str());
    let ghost ib = insts_of(instances@);
    push_inst(&mut instances, core.clone(), core_name, core_conns);
    let mut params: Vec<(String, Ty, u128)> = Vec::new();
    let mut k: usize = 0;
    while k < module.params.len()
        invariant
            k <= module.params@.len(),
            params@ == module.params@.take(k as int),
        decreases module.params@.len() - k,
    {
        let q = &module.params[k];
        params.push((q.0.clone(), q.1.clone(), q.2));
        proof {
            assert(params@ =~= module.params@.take(k + 1));
        }
        k = k + 1;
    }
    proof {
        assert(module.params@.take(k as int) =~= module.params@);
    }
    let wrapper = Module {
        name: module.name.clone(),
        ports,
        values: Vec::new(),
        drivers: Vec::new(),
        regs: Vec::new(),
        mems: Vec::new(),
        asserts: Vec::new(),
        // Carried, not dropped: a wrapper whose dimensions come from a
        // number that is written down nowhere is hard to read.
        params,
        nets,
        instances,
        // A wrapper calls nothing and is used by nothing: it is the top of
        // whatever it wraps, which is what being a target means.
        calls: Vec::new(),
    };
    (wrapper, core)
}

/// The signature a name refers to, the last one by that name; -1 if none.
pub open spec fn sig_named(sigs: Seq<BlockSig>, n: Seq<char>) -> int
    decreases sigs.len(),
{
    if sigs.len() == 0 {
        -1
    } else if sigs.last().name@ == n {
        sigs.len() - 1
    } else {
        sig_named(sigs.drop_last(), n)
    }
}

/// Some parameter is a pipe.
pub open spec fn has_pipe(args: Seq<ArgSig>) -> bool {
    exists|i: int| 0 <= i < args.len() && #[trigger] args[i] is Pipe
}

/// `t` is a module here with a pipe interface, so it gets a wrapper. A `fun`
/// has no pipe interface: it is already a plain combinational module with no
/// salt anywhere in it, and there is nothing to translate.
pub open spec fn is_wrapped(mods: Seq<Module>, sigs: Seq<BlockSig>, t: Seq<char>) -> bool {
    &&& module_names(mods).contains(t)
    &&& sig_named(sigs, t) >= 0
    &&& has_pipe(sigs[sig_named(sigs, t)].args@)
}

/// The targets that get a wrapper, in order.
pub open spec fn wrapped_targets(mods: Seq<Module>, sigs: Seq<BlockSig>, ts: Seq<Seq<char>>) -> Seq<Seq<char>>
    decreases ts.len(),
{
    if ts.len() == 0 {
        Seq::empty()
    } else {
        let prev = wrapped_targets(mods, sigs, ts.drop_last());
        if is_wrapped(mods, sigs, ts.last()) { prev.push(ts.last()) } else { prev }
    }
}

/// The name a module or an instance refers to after the targets' logic has
/// been renamed.
pub open spec fn renamed_to(mods: Seq<Module>, sigs: Seq<BlockSig>, ts: Seq<Seq<char>>, n: Seq<char>) -> Seq<char> {
    if ts.contains(n) && is_wrapped(mods, sigs, n) {
        n + "_core"@
    } else {
        n
    }
}

/// A name is among the wrapped targets exactly when it is a target that
/// gets a wrapper.
proof fn lemma_wrapped_targets(mods: Seq<Module>, sigs: Seq<BlockSig>, ts: Seq<Seq<char>>, n: Seq<char>)
    ensures
        wrapped_targets(mods, sigs, ts).contains(n) <==> ts.contains(n) && is_wrapped(mods, sigs, n),
    decreases ts.len(),
{
    if ts.len() > 0 {
        let t = ts.drop_last();
        lemma_wrapped_targets(mods, sigs, t, n);
        let prev = wrapped_targets(mods, sigs, t);
        lemma_contains_push(prev, ts.last(), n);
        lemma_contains_push(t, ts.last(), n);
        assert(ts =~= t.push(ts.last()));
    }
}

/// The first module by a name.
fn first_module(modules: &Vec<Module>, name: &String) -> (r: Option<usize>)
    ensures
        match r {
            Some(i) => i < modules@.len() && modules@[i as int].name@ == name@
                && forall|j: int| 0 <= j < i ==> modules@[j].name@ != name@,
            None => !module_names(modules@).contains(name@),
        },
{
    let mut i: usize = 0;
    while i < modules.len()
        invariant
            i <= modules@.len(),
            forall|j: int| 0 <= j < i ==> modules@[j].name@ != name@,
        decreases modules@.len() - i,
    {
        if modules[i].name == *name {
            return Some(i);
        }
        i = i + 1;
    }
    proof {
        if module_names(modules@).contains(name@) {
            let j = choose|j: int| 0 <= j < module_names(modules@).len() && module_names(modules@)[j] == name@;
            assert(modules@[j].name@ == name@);
        }
    }
    None
}

proof fn lemma_sig_named(sigs: Seq<BlockSig>, n: Seq<char>)
    ensures
        -1 <= sig_named(sigs, n) < sigs.len(),
        sig_named(sigs, n) >= 0 ==> sigs[sig_named(sigs, n)].name@ == n,
    decreases sigs.len(),
{
    if sigs.len() > 0 && sigs.last().name@ != n {
        lemma_sig_named(sigs.drop_last(), n);
    }
}

/// The signature by a name, the last one.
fn find_sig(sigs: &Vec<BlockSig>, name: &String) -> (r: Option<usize>)
    ensures
        match r {
            Some(i) => i as int == sig_named(sigs@, name@),
            None => sig_named(sigs@, name@) < 0,
        },
{
    let mut i = sigs.len();
    proof {
        assert(sigs@.take(i as int) =~= sigs@);
    }
    while i > 0
        invariant
            i <= sigs@.len(),
            sig_named(sigs@, name@) == sig_named(sigs@.take(i as int), name@),
        decreases i,
    {
        proof {
            assert(sigs@.take(i as int).drop_last() =~= sigs@.take(i - 1));
        }
        if sigs[i - 1].name == *name {
            return Some(i - 1);
        }
        i = i - 1;
    }
    None
}

fn any_pipe(args: &Vec<ArgSig>) -> (r: bool)
    ensures
        r == has_pipe(args@),
{
    let mut i: usize = 0;
    while i < args.len()
        invariant
            i <= args@.len(),
            forall|j: int| 0 <= j < i ==> !(#[trigger] args@[j] is Pipe),
        decreases args@.len() - i,
    {
        match &args[i] {
            ArgSig::Pipe(_) => {
                return true;
            },
            ArgSig::Wire(_) => {},
        }
        i = i + 1;
    }
    false
}

/// Renames each target's logic, repoints everything that used it, and
/// appends the wrappers.
///
/// Wrappers go last so the file still reads top to bottom: an adapter and a
/// core are both named by the wrapper that follows them. The signatures are
/// looked up by name; every pipe payload in them fits a width.
pub fn apply(modules: Vec<Module>, targets: &Vec<String>, sigs: &Vec<BlockSig>, adapts: &mut Vec<AdaptUse>) -> (r: Vec<Module>)
    requires
        forall|i: int| 0 <= i < sigs@.len() ==> pipes_sized(#[trigger] sigs@[i].args@),
    ensures
        ({
            let ts = names(targets@);
            let wt = wrapped_targets(modules@, sigs@, ts);
            &&& r@.len() == modules@.len() + wt.len()
            &&& forall|i: int| #![trigger r@[i]] 0 <= i < modules@.len() ==> {
                let m = modules@[i];
                &&& r@[i].name@ == renamed_to(modules@, sigs@, ts, m.name@)
                &&& r@[i].instances@.len() == m.instances@.len()
                &&& forall|j: int| 0 <= j < m.instances@.len() ==> (#[trigger] r@[i].instances@[j]).module@
                    == renamed_to(modules@, sigs@, ts, m.instances@[j].module@) && r@[i].instances@[j].name
                    == m.instances@[j].name && r@[i].instances@[j].conns == m.instances@[j].conns
                &&& r@[i].ports == m.ports
                &&& r@[i].values == m.values
                &&& r@[i].drivers == m.drivers
                &&& r@[i].regs == m.regs
                &&& r@[i].mems == m.mems
                &&& r@[i].nets == m.nets
                &&& r@[i].calls == m.calls
                &&& r@[i].asserts == m.asserts
                &&& r@[i].params == m.params
            }
            &&& forall|k: int| #![trigger r@[modules@.len() + k]] 0 <= k < wt.len() ==> {
                let w = r@[modules@.len() + k];
                &&& w.name@ == wt[k]
                &&& ports_of(w.ports@) == clock_ports() + each_ports(sigs@[sig_named(sigs@, wt[k])].args@)
                &&& nets_of(w.nets@) == each_nets(sigs@[sig_named(sigs@, wt[k])].args@)
                // The wrapper `wrap` builds for the first module of that name.
                &&& exists|mi: int| 0 <= mi < modules@.len() && modules@[mi].name@ == wt[k]
                    && (forall|j: int| 0 <= j < mi ==> modules@[j].name@ != wt[k])
                    && #[trigger] wrapper_of(w, modules@[mi], sigs@[sig_named(sigs@, wt[k])].args@)
            }
        }),
        final(adapts)@.take(old(adapts)@.len() as int) == old(adapts)@,
{
    let ghost ts = names(targets@);
    let ghost mods0 = modules@;
    let mut modules = modules;
    let mut wrappers: Vec<Module> = Vec::new();
    let mut renamed: Vec<String> = Vec::new();
    let ghost a0 = adapts@;
    let mut t: usize = 0;
    proof {
        assert(ts.take(0) =~= Seq::<Seq<char>>::empty());
    }
    while t < targets.len()
        invariant
            t <= targets@.len(),
            ts == names(targets@),
            modules@ == mods0,
            forall|i: int| 0 <= i < sigs@.len() ==> pipes_sized(#[trigger] sigs@[i].args@),
            wrappers@.len() == wrapped_targets(mods0, sigs@, ts.take(t as int)).len(),
            names(renamed@) == wrapped_targets(mods0, sigs@, ts.take(t as int)),
            forall|k: int| #![trigger wrappers@[k]] 0 <= k < wrappers@.len() ==> {
                let wt = wrapped_targets(mods0, sigs@, ts.take(t as int));
                &&& wrappers@[k].name@ == wt[k]
                &&& ports_of(wrappers@[k].ports@) == clock_ports() + each_ports(sigs@[sig_named(sigs@, wt[k])].args@)
                &&& nets_of(wrappers@[k].nets@) == each_nets(sigs@[sig_named(sigs@, wt[k])].args@)
                &&& exists|mi: int| 0 <= mi < mods0.len() && mods0[mi].name@ == wt[k]
                    && (forall|j: int| 0 <= j < mi ==> mods0[j].name@ != wt[k])
                    && #[trigger] wrapper_of(wrappers@[k], mods0[mi], sigs@[sig_named(sigs@, wt[k])].args@)
            },
            adapts@.len() >= a0.len(),
            adapts@.take(a0.len() as int) == a0,
        decreases targets@.len() - t,
    {
        let ghost prev = wrapped_targets(mods0, sigs@, ts.take(t as int));
        proof {
            assert(ts.take(t + 1).drop_last() =~= ts.take(t as int));
            assert(ts.take(t + 1).last() == targets@[t as int]@);
        }
        let target = &targets[t];
        proof {
            lemma_sig_named(sigs@, target@);
        }
        match first_module(&modules, target) {
            None => {},
            Some(mi) => {
                match find_sig(sigs, target) {
                    None => {},
                    Some(si) => {
                        if any_pipe(&sigs[si].args) {
                            proof {
                                assert(module_names(mods0)[mi as int] == target@);
                            }
                            let ghost ab = adapts@;
                            let (wrapper, _core) = wrap(&modules[mi], &sigs[si], adapts);
                            wrappers.push(wrapper);
                            let ghost rb = renamed@;
                            renamed.push(target.clone());
                            proof {
                                lemma_names_push(rb, renamed@.last());
                                assert(has_pipe(sigs@[si as int].args@));
                                assert(is_wrapped(mods0, sigs@, target@));
                                assert(wrapped_targets(mods0, sigs@, ts.take(t + 1)) == prev.push(target@));
                                assert forall|k: int| #![trigger wrappers@[k]] 0 <= k < wrappers@.len() implies {
                                    let wt = wrapped_targets(mods0, sigs@, ts.take(t + 1));
                                    &&& wrappers@[k].name@ == wt[k]
                                    &&& ports_of(wrappers@[k].ports@) == clock_ports() + each_ports(sigs@[sig_named(sigs@, wt[k])].args@)
                                    &&& nets_of(wrappers@[k].nets@) == each_nets(sigs@[sig_named(sigs@, wt[k])].args@)
                                    &&& exists|mi: int| 0 <= mi < mods0.len() && mods0[mi].name@ == wt[k]
                                        && (forall|j: int| 0 <= j < mi ==> mods0[j].name@ != wt[k])
                                        && #[trigger] wrapper_of(wrappers@[k], mods0[mi], sigs@[sig_named(sigs@, wt[k])].args@)
                                } by {
                                    if k < prev.len() {
                                        assert(wrappers@[k] == wrappers@.drop_last()[k]);
                                        let wt = wrapped_targets(mods0, sigs@, ts.take(t + 1));
                                        assert(wt[k] == prev[k]);
                                        let m2 = choose|m2: int| 0 <= m2 < mods0.len() && mods0[m2].name@ == prev[k]
                                            && (forall|j: int| 0 <= j < m2 ==> mods0[j].name@ != prev[k])
                                            && #[trigger] wrapper_of(wrappers@.drop_last()[k], mods0[m2], sigs@[sig_named(sigs@, prev[k])].args@);
                                        assert(wrapper_of(wrappers@[k], mods0[m2], sigs@[sig_named(sigs@, wt[k])].args@));
                                    } else {
                                        let wt = wrapped_targets(mods0, sigs@, ts.take(t + 1));
                                        assert(wt[k] == target@);
                                        assert(wrappers@[k] == wrapper);
                                        assert(ports_of(wrappers@[k].ports@) == clock_ports() + each_ports(sigs@[sig_named(sigs@, wt[k])].args@));
                                        assert(sigs@[sig_named(sigs@, wt[k])].args@ == sigs@[si as int].args@);
                                        assert(wrapper_of(wrappers@[k], mods0[mi as int], sigs@[sig_named(sigs@, wt[k])].args@));
                                        assert(0 <= mi < mods0.len() && mods0[mi as int].name@ == wt[k]
                                            && (forall|j: int| 0 <= j < mi ==> mods0[j].name@ != wt[k]));
                                    }
                                }
                            }
                            proof {
                                assert(adapts@.take(a0.len() as int) =~= a0) by {
                                    assert forall|k: int| 0 <= k < a0.len() implies adapts@[k] == a0[k] by {
                                        assert(adapts@.take(ab.len() as int)[k] == ab[k]);
                                        assert(ab.take(a0.len() as int)[k] == a0[k]);
                                    }
                                }
                            }
                        }
                    },
                }
            },
        }
        t = t + 1;
    }
    proof {
        assert(ts.take(t as int) =~= ts);
    }
    // Every module that was a target, and every instance of one, now names
    // its core.
    {
        let mut i: usize = 0;
        while i < modules.len()
            invariant
                i <= modules@.len(),
                modules@.len() == mods0.len(),
                ts == names(targets@),
                names(renamed@) == wrapped_targets(mods0, sigs@, ts),
                forall|k: int| i <= k < mods0.len() ==> #[trigger] modules@[k] == mods0[k],
                forall|k: int| #![trigger modules@[k]] 0 <= k < i ==> {
                    let m = mods0[k];
                    &&& modules@[k].name@ == renamed_to(mods0, sigs@, ts, m.name@)
                    &&& modules@[k].instances@.len() == m.instances@.len()
                    &&& forall|j: int| 0 <= j < m.instances@.len() ==> (#[trigger] modules@[k].instances@[j]).module@
                        == renamed_to(mods0, sigs@, ts, m.instances@[j].module@) && modules@[k].instances@[j].name
                        == m.instances@[j].name && modules@[k].instances@[j].conns == m.instances@[j].conns
                    &&& modules@[k].ports == m.ports
                    &&& modules@[k].values == m.values
                    &&& modules@[k].drivers == m.drivers
                    &&& modules@[k].regs == m.regs
                    &&& modules@[k].mems == m.mems
                    &&& modules@[k].nets == m.nets
                    &&& modules@[k].calls == m.calls
                    &&& modules@[k].asserts == m.asserts
                    &&& modules@[k].params == m.params
                },
            decreases mods0.len() - i,
        {
            proof {
                lemma_wrapped_targets(mods0, sigs@, ts, mods0[i as int].name@);
            }
            if contains_name(&renamed, &modules[i].name) {
                let new_name = suffixed(&modules[i].name, "_core");
                modules[i].name = new_name;
            }
            let ghost mi = mods0[i as int];
            let mut j: usize = 0;
            while j < modules[i].instances.len()
                invariant
                    i < modules@.len(),
                    modules@.len() == mods0.len(),
                    mi == mods0[i as int],
                    ts == names(targets@),
                    names(renamed@) == wrapped_targets(mods0, sigs@, ts),
                    j <= mi.instances@.len(),
                    modules@[i as int].instances@.len() == mi.instances@.len(),
                    modules@[i as int].name@ == renamed_to(mods0, sigs@, ts, mi.name@),
                    forall|q: int| j <= q < mi.instances@.len() ==> #[trigger] modules@[i as int].instances@[q] == mi.instances@[q],
                    forall|q: int| 0 <= q < j ==> (#[trigger] modules@[i as int].instances@[q]).module@
                        == renamed_to(mods0, sigs@, ts, mi.instances@[q].module@) && modules@[i as int].instances@[q].name
                        == mi.instances@[q].name && modules@[i as int].instances@[q].conns == mi.instances@[q].conns,
                    modules@[i as int].ports == mi.ports,
                    modules@[i as int].values == mi.values,
                    modules@[i as int].drivers == mi.drivers,
                    modules@[i as int].regs == mi.regs,
                    modules@[i as int].mems == mi.mems,
                    modules@[i as int].nets == mi.nets,
                    modules@[i as int].calls == mi.calls,
                    modules@[i as int].asserts == mi.asserts,
                    modules@[i as int].params == mi.params,
                    forall|k: int| i < k < mods0.len() ==> #[trigger] modules@[k] == mods0[k],
                    forall|k: int| #![trigger modules@[k]] 0 <= k < i ==> {
                        let m = mods0[k];
                        &&& modules@[k].name@ == renamed_to(mods0, sigs@, ts, m.name@)
                        &&& modules@[k].instances@.len() == m.instances@.len()
                        &&& forall|q: int| 0 <= q < m.instances@.len() ==> (#[trigger] modules@[k].instances@[q]).module@
                            == renamed_to(mods0, sigs@, ts, m.instances@[q].module@) && modules@[k].instances@[q].name
                            == m.instances@[q].name && modules@[k].instances@[q].conns == m.instances@[q].conns
                        &&& modules@[k].ports == m.ports
                        &&& modules@[k].values == m.values
                        &&& modules@[k].drivers == m.drivers
                        &&& modules@[k].regs == m.regs
                        &&& modules@[k].mems == m.mems
                        &&& modules@[k].nets == m.nets
                        &&& modules@[k].calls == m.calls
                        &&& modules@[k].asserts == m.asserts
                        &&& modules@[k].params == m.params
                    },
                decreases mi.instances@.len() - j,
            {
                proof {
                    lemma_wrapped_targets(mods0, sigs@, ts, mi.instances@[j as int].module@);
                }
                if contains_name(&renamed, &modules[i].instances[j].module) {
                    let new_module = suffixed(&modules[i].instances[j].module, "_core");
                    modules[i].instances[j].module = new_module;
                }
                j = j + 1;
            }
            i = i + 1;
        }
    }
    let ghost renamed_mods = modules@;
    let ghost ws = wrappers@;
    modules.append(&mut wrappers);
    proof {
        assert(modules@ == renamed_mods + ws);
        assert forall|i: int| #![trigger modules@[i]] 0 <= i < mods0.len() implies modules@[i] == renamed_mods[i] by {}
        assert forall|k: int| 0 <= k < ws.len() implies #[trigger] modules@[mods0.len() + k] == ws[k] by {}
    }
    modules
}

} // verus!
