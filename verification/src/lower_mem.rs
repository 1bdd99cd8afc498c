// Memories: their write ports while a body is lowered, and how the ports two
// or more arms of a branch created are reconciled.
//
// A memory's write ports live in the environment beside the values, one
// binding per field of each port, keyed `<mem>#<slot>#we` / `#addr` /
// `#data`, so a branch join muxes them like any other binding. The slot is
// which port. They are created ON DEMAND, one per write the path has
// performed, so a memory nothing writes has none at all and a branch that
// writes once more than the other is a slot only one arm filled -- which the
// join finishes with an idle port.

use vstd::prelude::*;
use crate::ir::{ValueId, BinOp, CmpOp, UnOp, Op, ValueDef, WritePort, Memory, vid_ok, write_port_ok, mem_ok};
use crate::ty::{Ty, MemKind, bool_ty, width, bits_for, bits_needed, ty_text, fits, literal_fits};
use crate::env::{Binding, Env};
use crate::text::{dec, push_decimal, lemma_dec_digits, lemma_dec_injective};
use crate::lowerer::{Lowerer, port_key, bool_type, emitted, emit_result, lemma_emitted, grows, pipe_ok, term_ok, emit_folds, no_reg_reads};
use crate::diag::{Diag, DiagSink, Span};
use crate::lower_path::{lemma_adds_trans, lemma_adds_none, lemma_inv_same_graph};

verus! {

pub open spec fn we_key(name: Seq<char>, slot: nat) -> Seq<char> {
    port_key(name, slot, "we"@)
}

pub open spec fn addr_key(name: Seq<char>, slot: nat) -> Seq<char> {
    port_key(name, slot, "addr"@)
}

pub open spec fn data_key(name: Seq<char>, slot: nat) -> Seq<char> {
    port_key(name, slot, "data"@)
}

/// The port in slot `slot` of the memory called `name`, if `env` holds all
/// three of its fields.
pub open spec fn slot_port(env: Env, name: Seq<char>, slot: nat) -> Option<WritePort> {
    match (env.value_of(we_key(name, slot)), env.value_of(addr_key(name, slot)), env.value_of(data_key(name, slot))) {
        (Some(we), Some(addr), Some(data)) => Some(WritePort { we, addr, data }),
        _ => None,
    }
}

/// Whether `k` is one of the keys of a write port.
pub open spec fn is_field(f: Seq<char>) -> bool {
    f == "we"@ || f == "addr"@ || f == "data"@
}

/// Two port keys are the same key only for the same memory, slot and field.
pub proof fn lemma_port_key_injective(n1: Seq<char>, s1: nat, f1: Seq<char>, n2: Seq<char>, s2: nat, f2: Seq<char>)
    requires
        is_field(f1),
        is_field(f2),
        port_key(n1, s1, f1) == port_key(n2, s2, f2),
    ensures
        n1 == n2,
        s1 == s2,
        f1 == f2,
{
    reveal_strlit("we");
    reveal_strlit("addr");
    reveal_strlit("data");
    reveal_strlit("#");
    let k1 = port_key(n1, s1, f1);
    let k2 = port_key(n2, s2, f2);
    let l = k1.len() as int;
    // The third character from the end tells the three fields apart.
    assert(k1[l - 3] == k2[l - 3]);
    assert(f1 == f2) by {
        if f1 != f2 {
            if f1 == "we"@ {
                assert(k1[l - 3] == '#');
            } else if f2 == "we"@ {
                assert(k2[l - 3] == '#');
            } else {
                assert(k1[l - 3] != k2[l - 3]);
            }
        }
    }
    let d1 = dec(s1);
    let d2 = dec(s2);
    lemma_dec_digits(s1);
    lemma_dec_digits(s2);
    let p1 = n1 + "#"@ + d1;
    let p2 = n2 + "#"@ + d2;
    assert(k1 =~= p1 + "#"@ + f1);
    assert(k2 =~= p2 + "#"@ + f2);
    assert(p1 =~= k1.take(l - f1.len() - 1));
    assert(p2 =~= k2.take(l - f2.len() - 1));
    assert(p1 == p2);
    // The last `#` before the numeral ends the name.
    assert(n1.len() == n2.len()) by {
        if n1.len() < n2.len() {
            let i = n2.len() as int;
            assert(p2[i] == '#');
            assert(p1[i] == d1[i - n1.len() - 1]);
        } else if n2.len() < n1.len() {
            let i = n1.len() as int;
            assert(p1[i] == '#');
            assert(p2[i] == d2[i - n2.len() - 1]);
        }
    }
    assert(n1 =~= p1.take(n1.len() as int));
    assert(n2 =~= p2.take(n2.len() as int));
    assert(d1 =~= p1.skip(n1.len() as int + 1));
    assert(d2 =~= p2.skip(n2.len() as int + 1));
    lemma_dec_injective(s1, s2);
}

/// One field's key.
fn key_of(name: &str, slot: usize, field: &str) -> (k: String)
    ensures
        k@ == port_key(name@, slot as nat, field@),
{
    let mut k = String::from_str(name);
    k.append("#");
    push_decimal(&mut k, slot as u64);
    k.append("#");
    k.append(field);
    k
}

impl Lowerer {
    /// The environment keys of one write port's three fields.
    pub fn mem_port_keys(name: &str, slot: usize) -> (r: (String, String, String))
        ensures
            r.0@ == we_key(name@, slot as nat),
            r.1@ == addr_key(name@, slot as nat),
            r.2@ == data_key(name@, slot as nat),
    {
        (key_of(name, slot, "we"), key_of(name, slot, "addr"), key_of(name, slot, "data"))
    }

    /// How many write ports `mems[ix]` has taken on the path being lowered.
    pub fn mem_slots(&self, ix: usize) -> (n: usize)
        requires
            ix < self.slots().len(),
        ensures
            n == self.slots()[ix as int],
    {
        self.mem_slots[ix]
    }

    /// Sets that count, for a join that reconciles two arms or a state that
    /// starts over.
    pub fn set_mem_slots(&mut self, ix: usize, n: usize)
        requires
            old(self).inv(),
            ix < old(self).slots().len(),
        ensures
            final(self).inv(),
            final(self).slots() == old(self).slots().update(ix as int, n),
            final(self).vals() == old(self).vals(),
            final(self).pipes == old(self).pipes,
            final(self).ports_view() == old(self).ports_view(),
            final(self).mems == old(self).mems,
            final(self).path_view() == old(self).path_view(),
            final(self).asserts == old(self).asserts,
    {
        self.mem_slots.set(ix, n);
        proof {
            lemma_inv_slots(old(self), self);
        }
    }

    /// A port that never fires: enabled never, addressing nothing, zero data.
    pub fn idle_write(&mut self, ix: usize) -> (w: WritePort)
        requires
            ix < old(self).mems@.len(),
        ensures
            w == old(self).mems@[ix as int].idle,
            *final(self) == *old(self),
    {
        self.mems[ix].idle
    }

    /// Reads slot `slot` of `mems[ix]` out of `env`, if it has one.
    ///
    /// Emits nothing, so probing a slot an arm never filled costs no values --
    /// the caller supplies `idle_write` only where it turns out to need one.
    pub fn write_slot(&self, ix: usize, slot: usize, env: &Env) -> (r: Option<WritePort>)
        requires
            ix < self.mems@.len(),
        ensures
            r == slot_port(*env, self.mems@[ix as int].name@, slot as nat),
    {
        let (we_key, addr_key, data_key) = Self::mem_port_keys(self.mems[ix].name.as_str(), slot);
        let we = env.get_value(we_key.as_str());
        let addr = env.get_value(addr_key.as_str());
        let data = env.get_value(data_key.as_str());
        match (we, addr, data) {
            (Some(we), Some(addr), Some(data)) => Some(WritePort { we, addr, data }),
            _ => None,
        }
    }

    /// Writes one slot back into `env`.
    pub fn put_write_slot(&mut self, ix: usize, slot: usize, port: WritePort, env: &mut Env)
        requires
            ix < old(self).mems@.len(),
        ensures
            *final(self) == *old(self),
            ({
                let m = old(self).mems@[ix as int];
                &&& final(env).lookup(we_key(m.name@, slot as nat)) == Some(Binding::constant_spec(port.we, bool_ty()))
                &&& final(env).lookup(addr_key(m.name@, slot as nat)) == Some(Binding::constant_spec(port.addr, Ty::UInt(m.addr_width)))
                &&& final(env).lookup(data_key(m.name@, slot as nat)) == Some(Binding::constant_spec(port.data, m.elem))
                &&& forall|k: Seq<char>| k != we_key(m.name@, slot as nat) && k != addr_key(m.name@, slot as nat)
                    && k != data_key(m.name@, slot as nat) ==> final(env).lookup(k) == old(env).lookup(k)
            }),
            slot_port(*final(env), old(self).mems@[ix as int].name@, slot as nat) == Some(port),
    {
        let (we_key, addr_key, data_key) = Self::mem_port_keys(self.mems[ix].name.as_str(), slot);
        let aw = self.mems[ix].addr_width;
        let elem = self.mems[ix].elem.clone();
        let ghost n = self.mems@[ix as int].name@;
        proof {
            reveal_strlit("we");
            reveal_strlit("addr");
            reveal_strlit("data");
            assert("we"@ != "addr"@);
            assert("we"@ != "data"@);
            assert("addr"@ != "data"@) by {
                assert("addr"@[0] != "data"@[0]);
            }
            if we_key@ == addr_key@ {
                lemma_port_key_injective(n, slot as nat, "we"@, n, slot as nat, "addr"@);
            }
            if we_key@ == data_key@ {
                lemma_port_key_injective(n, slot as nat, "we"@, n, slot as nat, "data"@);
            }
            if addr_key@ == data_key@ {
                lemma_port_key_injective(n, slot as nat, "addr"@, n, slot as nat, "data"@);
            }
        }
        env.insert(we_key, Binding::constant(port.we, bool_type()));
        env.insert(addr_key, Binding::constant(port.addr, Ty::UInt(aw)));
        env.insert(data_key, Binding::constant(port.data, elem));
    }
}

/// The invariant does not read the slot counts beyond their number.
pub proof fn lemma_inv_slots(old: &Lowerer, new: &Lowerer)
    requires
        old.inv(),
        new.vals() == old.vals(),
        new.ports_view() == old.ports_view(),
        new.pipes == old.pipes,
        new.mems == old.mems,
        new.slots().len() == old.slots().len(),
        new.path_view() == old.path_view(),
        new.asserts == old.asserts,
        new.stop_writes == old.stop_writes,
    ensures
        new.inv(),
{
    let n = new.vals().len();
    assert forall|j: int| 0 <= j < new.mems@.len() implies mem_ok(#[trigger] new.mems@[j], n)
        && width(new.mems@[j].elem) <= u32::MAX by {
        assert(mem_ok(old.mems@[j], n));
    }
    assert forall|j: int| 0 <= j < new.pipes@.len() implies pipe_ok(#[trigger] new.pipes@[j], n, new.ports_view().len()) by {
        assert(pipe_ok(old.pipes@[j], n, old.ports_view().len()));
    }
    assert forall|j: int| 0 <= j < new.path_view().len() implies term_ok(#[trigger] new.path_view()[j], n) by {
        assert(term_ok(old.path_view()[j], n));
    }
    assert forall|j: int| 0 <= j < new.asserts@.len() implies vid_ok((#[trigger] new.asserts@[j]).cond, n) by {
        assert(vid_ok(old.asserts@[j].cond, n));
    }
}

/// Every value `env` binds exists among the first `n`.
pub open spec fn env_ok(env: Env, n: nat) -> bool {
    forall|k: Seq<char>| #[trigger] env.value_of(k) is Some ==> vid_ok(env.value_of(k)->0, n)
}

/// What `mux_or_same(cond, a, b)` builds: `a` when the two cannot differ,
/// else `cond ? a : b`.
pub open spec fn mux_spec(vals: Seq<ValueDef>, cond: ValueId, a: ValueId, b: ValueId, ty: Ty) -> (Seq<ValueDef>, ValueId) {
    if a == b || (vals[a.0 as int].op is Const && vals[b.0 as int].op == vals[a.0 as int].op) {
        (vals, a)
    } else {
        let op = Op::Mux { cond, then_val: a, else_val: b };
        (emitted(vals, ty, op), emit_result(vals, ty, op))
    }
}

/// `r` is `cond ? a : b`: `a` itself when the two are the same value or the
/// same constant, `cond` itself when that is `cond ? 1 : 0`, or a mux.
pub open spec fn muxed(vals: Seq<ValueDef>, cond: ValueId, a: ValueId, b: ValueId, r: ValueId) -> bool {
    ||| r == a && (a == b || (vals[a.0 as int].op is Const && vals[b.0 as int].op == vals[a.0 as int].op))
    ||| r == cond && vals[a.0 as int].op == Op::Const(1) && vals[b.0 as int].op == Op::Const(0)
    ||| (r.0 as int) < vals.len() && vals[r.0 as int].op == (Op::Mux { cond, then_val: a, else_val: b })
}

/// Each field of `w` is the matching field of `t` or `e` chosen by `cond`.
pub open spec fn port_muxed(vals: Seq<ValueDef>, cond: ValueId, t: WritePort, e: WritePort, w: WritePort) -> bool {
    &&& muxed(vals, cond, t.we, e.we, w.we)
    &&& muxed(vals, cond, t.addr, e.addr, w.addr)
    &&& muxed(vals, cond, t.data, e.data, w.data)
}

/// Memory names are told apart, so their ports' keys are too.
pub open spec fn names_distinct(mems: Seq<Memory>) -> bool {
    forall|i: int, j: int| 0 <= i < j < mems.len() ==> #[trigger] mems[i].name@ != #[trigger] mems[j].name@
}

/// `k` is a key of slot `slot` of memory `name`.
pub open spec fn key_of_slot(k: Seq<char>, name: Seq<char>, slot: nat) -> bool {
    k == we_key(name, slot) || k == addr_key(name, slot) || k == data_key(name, slot)
}

proof fn lemma_muxed_grows(a: Seq<ValueDef>, b: Seq<ValueDef>, cond: ValueId, x: ValueId, y: ValueId, r: ValueId)
    requires
        grows(a, b),
        muxed(a, cond, x, y, r),
        vid_ok(x, a.len()),
        vid_ok(y, a.len()),
    ensures
        muxed(b, cond, x, y, r),
{
    assert(b[x.0 as int].op == a[x.0 as int].op);
    assert(b[y.0 as int].op == a[y.0 as int].op);
    if (r.0 as int) < a.len() {
        assert(b[r.0 as int].op == a[r.0 as int].op);
    }
}

impl Lowerer {
    /// `cond ? a : b`, or `a` when the two cannot differ.
    ///
    /// The constant case is not an optimisation for its own sake. Both arms of
    /// `if c then m[i] = x else m[j] = y` write with an enable of literal 1,
    /// emitted separately, so without this the shared port's enable comes out
    /// as `c ? 1'b1 : 1'b1`.
    fn mux_or_same(&mut self, cond: ValueId, a: ValueId, b: ValueId, ty: Ty) -> (r: ValueId)
        requires
            old(self).inv(),
            old(self).room(1),
            vid_ok(cond, old(self).vals().len()),
            vid_ok(a, old(self).vals().len()),
            vid_ok(b, old(self).vals().len()),
        ensures
            final(self).inv(),
            final(self).adds(old(self), 1),
            (final(self).vals(), r) == mux_spec(old(self).vals(), cond, a, b, ty),
            muxed(final(self).vals(), cond, a, b, r),
            vid_ok(r, final(self).vals().len()),
    {
        if a == b {
            proof { lemma_adds_none(self); }
            return a;
        }
        let same_const = match (&self.values[a.0 as usize].op, &self.values[b.0 as usize].op) {
            (Op::Const(x), Op::Const(y)) => *x == *y,
            _ => false,
        };
        if same_const {
            proof { lemma_adds_none(self); }
            return a;
        }
        let ghost vb = self.vals();
        let r = self.emit(ty, Op::Mux { cond, then_val: a, else_val: b });
        proof {
            let op = Op::Mux { cond, then_val: a, else_val: b };
            lemma_emitted(vb, ty, op);
            if crate::lowerer::emit_folds(vb, ty, op) is None {
                assert(self.vals()[r.0 as int].op == op);
            }
        }
        r
    }

    /// Joins the write ports two arms of a branch created.
    ///
    /// Slots below `base` existed before the branch and neither arm touched
    /// them -- a write appends, it never overwrites -- so only the ones the
    /// arms added need reconciling. An arm that added fewer gets an idle port
    /// for the difference, which is what makes `if c then m[a] = v` with no
    /// else come out as a write enable of `c` rather than as a second port.
    pub fn join_write_slots(
        &mut self,
        cond: ValueId,
        base: &[usize],
        then_env: &Env,
        then_n: &[usize],
        else_env: &Env,
        else_n: &[usize],
        env: &mut Env,
    )
        requires
            old(self).inv(),
            names_distinct(old(self).mems@),
            base@.len() == old(self).mems@.len(),
            then_n@.len() == old(self).mems@.len(),
            else_n@.len() == old(self).mems@.len(),
            vid_ok(cond, old(self).vals().len()),
            env_ok(*then_env, old(self).vals().len()),
            env_ok(*else_env, old(self).vals().len()),
            old(self).vals().len() + cost_from(then_n@, else_n@, 0) < u32::MAX,
        ensures
            final(self).inv(),
            grows(old(self).vals(), final(self).vals()),
            final(self).mems == old(self).mems,
            final(self).path_view() == old(self).path_view(),
            final(self).asserts == old(self).asserts,
            final(self).pipes == old(self).pipes,
            final(self).slots().len() == old(self).slots().len(),
            forall|j: int| 0 <= j < base@.len() ==> #[trigger] final(self).slots()[j] == (if then_n@[j] > else_n@[j] { then_n@[j] } else { else_n@[j] }),
            // Every slot an arm added holds the two arms' ports chosen by the
            // condition, an idle port standing in for the arm that lacks one.
            forall|j: int, s: nat| #![trigger slot_port(*final(env), old(self).mems@[j].name@, s)]
                0 <= j < base@.len() && base@[j] <= s < (if then_n@[j] > else_n@[j] { then_n@[j] } else { else_n@[j] })
                    ==> joined_slot(final(self).vals(), cond, *then_env, *else_env, *old(env), *final(env), old(self).mems@[j], s),
            // Slots below the base count, and beyond what either arm took,
            // are as they were.
            forall|j: int, s: nat| #![trigger slot_port(*final(env), old(self).mems@[j].name@, s)]
                0 <= j < base@.len() && (s < base@[j] || s >= (if then_n@[j] > else_n@[j] { then_n@[j] } else { else_n@[j] }))
                    ==> slot_port(*final(env), old(self).mems@[j].name@, s) == slot_port(*old(env), old(self).mems@[j].name@, s),
            // Nothing else in the environment changes.
            forall|k: Seq<char>| #![trigger final(env).lookup(k)]
                (forall|j: int, s: nat| 0 <= j < base@.len() ==> !#[trigger] key_of_slot(k, old(self).mems@[j].name@, s))
                    ==> final(env).lookup(k) == old(env).lookup(k),
    {
        let ghost env0 = *env;
        let ghost low0 = *self;
        let nm = self.mems.len();
        let mut ix: usize = 0;
        proof {
            lemma_cost_from_split(then_n@, else_n@, 0);
            assert forall|j: int| 0 <= j < low0.mems@.len() implies write_port_ok((#[trigger] low0.mems@[j]).idle, low0.vals().len()) by {
                assert(mem_ok(low0.mems@[j], low0.vals().len()));
            }
        }
        while ix < nm
            invariant
                self.inv(),
                nm == self.mems@.len(),
                ix <= nm,
                self.mems == low0.mems,
                self.path_view() == low0.path_view(),
                self.asserts == low0.asserts,
                self.pipes == low0.pipes,
                grows(low0.vals(), self.vals()),
                self.vals().len() + cost_from(then_n@, else_n@, ix as int) < u32::MAX,
                self.slots().len() == nm,
                forall|j: int| 0 <= j < ix ==> #[trigger] self.slots()[j] == (if then_n@[j] > else_n@[j] { then_n@[j] } else { else_n@[j] }),
                names_distinct(low0.mems@),
                base@.len() == nm,
                then_n@.len() == nm,
                else_n@.len() == nm,
                vid_ok(cond, low0.vals().len()),
                env_ok(*then_env, low0.vals().len()),
                env_ok(*else_env, low0.vals().len()),
                forall|j: int, s: nat| #![trigger slot_port(*env, low0.mems@[j].name@, s)]
                    0 <= j < ix && base@[j] <= s < (if then_n@[j] > else_n@[j] { then_n@[j] } else { else_n@[j] }) ==> joined_slot(self.vals(), cond, *then_env, *else_env, env0, *env, low0.mems@[j], s),
                forall|j: int, s: nat| #![trigger slot_port(*env, low0.mems@[j].name@, s)]
                    0 <= j < ix && (s < base@[j] || s >= (if then_n@[j] > else_n@[j] { then_n@[j] } else { else_n@[j] }))
                        ==> slot_port(*env, low0.mems@[j].name@, s) == slot_port(env0, low0.mems@[j].name@, s),
                forall|k: Seq<char>| #![trigger env.lookup(k)]
                    (forall|j: int, s: nat| 0 <= j < ix ==> !#[trigger] key_of_slot(k, low0.mems@[j].name@, s))
                        ==> env.lookup(k) == env0.lookup(k),
                low0.inv(),
                forall|j: int| 0 <= j < low0.mems@.len() ==> write_port_ok((#[trigger] low0.mems@[j]).idle, low0.vals().len()),
            decreases nm - ix,
        {
            let n = if then_n[ix] > else_n[ix] { then_n[ix] } else { else_n[ix] };
            let mut slot = base[ix];
            let ghost mid_env = *env;
            let ghost name = low0.mems@[ix as int].name@;
            let ghost idle = low0.mems@[ix as int].idle;
            proof {
                lemma_cost_from_split(then_n@, else_n@, ix as int);
                assert forall|s: nat| #![trigger slot_port(*env, name, s)] slot <= s implies slot_port(*env, name, s) == slot_port(env0, name, s) by {
                    lemma_untouched_slot(*env, env0, low0, ix as int, s);
                }
                assert forall|s: nat| #![trigger slot_port(*env, name, s)] s < base@[ix as int] implies slot_port(*env, name, s) == slot_port(env0, name, s) by {
                    lemma_untouched_slot(*env, env0, low0, ix as int, s);
                }
            }
            while slot < n
                invariant
                    self.inv(),
                    nm == self.mems@.len(),
                    ix < nm,
                    self.mems == low0.mems,
                    self.path_view() == low0.path_view(),
                    self.asserts == low0.asserts,
                    self.pipes == low0.pipes,
                    grows(low0.vals(), self.vals()),
                    n == (if then_n@[ix as int] > else_n@[ix as int] { then_n@[ix as int] } else { else_n@[ix as int] }),
                    self.vals().len() + 3 * (if slot <= n { n - slot } else { 0 }) + cost_from(then_n@, else_n@, ix + 1) < u32::MAX,
                    slot <= n || slot == base@[ix as int],
                    base@[ix as int] <= slot,
                    self.slots().len() == nm,
                    forall|j: int| 0 <= j < ix ==> #[trigger] self.slots()[j] == (if then_n@[j] > else_n@[j] { then_n@[j] } else { else_n@[j] }),
                    names_distinct(low0.mems@),
                    base@.len() == nm,
                    then_n@.len() == nm,
                    else_n@.len() == nm,
                    name == low0.mems@[ix as int].name@,
                    idle == low0.mems@[ix as int].idle,
                    write_port_ok(idle, low0.vals().len()),
                    forall|j: int| 0 <= j < low0.mems@.len() ==> write_port_ok((#[trigger] low0.mems@[j]).idle, low0.vals().len()),
                    vid_ok(cond, low0.vals().len()),
                    env_ok(*then_env, low0.vals().len()),
                    env_ok(*else_env, low0.vals().len()),
                    forall|j: int, s: nat| #![trigger slot_port(*env, low0.mems@[j].name@, s)]
                        0 <= j < ix && base@[j] <= s < (if then_n@[j] > else_n@[j] { then_n@[j] } else { else_n@[j] }) ==> joined_slot(self.vals(), cond, *then_env, *else_env, env0, *env, low0.mems@[j], s),
                    forall|s: nat| #![trigger slot_port(*env, name, s)]
                        base@[ix as int] <= s < slot ==> joined_slot(self.vals(), cond, *then_env, *else_env, env0, *env, low0.mems@[ix as int], s),
                    forall|s: nat| #![trigger slot_port(*env, name, s)]
                        slot <= s ==> slot_port(*env, name, s) == slot_port(env0, name, s),
                    forall|s: nat| #![trigger slot_port(*env, name, s)]
                        s < base@[ix as int] ==> slot_port(*env, name, s) == slot_port(env0, name, s),
                    forall|j: int, s: nat| #![trigger slot_port(*env, low0.mems@[j].name@, s)]
                        0 <= j < ix && (s < base@[j] || s >= (if then_n@[j] > else_n@[j] { then_n@[j] } else { else_n@[j] }))
                            ==> slot_port(*env, low0.mems@[j].name@, s) == slot_port(env0, low0.mems@[j].name@, s),
                    forall|k: Seq<char>| #![trigger env.lookup(k)]
                        (forall|j: int, s: nat| 0 <= j <= ix ==> !#[trigger] key_of_slot(k, low0.mems@[j].name@, s))
                            ==> env.lookup(k) == env0.lookup(k),
                decreases n - slot,
            {
                let t = self.write_slot(ix, slot, then_env);
                let e = self.write_slot(ix, slot, else_env);
                let ghost env_before = *env;
                let ghost vals_before = self.vals();
                if t.is_some() || e.is_some() {
                    let idle_port = self.mems[ix].idle;
                    let tp = match t {
                        Some(t) => t,
                        None => idle_port,
                    };
                    let ep = match e {
                        Some(e) => e,
                        None => idle_port,
                    };
                    proof {
                        lemma_slot_port_ok(*then_env, name, slot as nat, low0.vals().len());
                        lemma_slot_port_ok(*else_env, name, slot as nat, low0.vals().len());
                    }
                    let aw = self.mems[ix].addr_width;
                    let elem = self.mems[ix].elem.clone();
                    let we = self.mux_or_same(cond, tp.we, ep.we, bool_type());
                    let ghost v1 = self.vals();
                    let addr = self.mux_or_same(cond, tp.addr, ep.addr, Ty::UInt(aw));
                    let ghost v2 = self.vals();
                    let data = self.mux_or_same(cond, tp.data, ep.data, elem);
                    proof {
                        lemma_muxed_grows(v1, self.vals(), cond, tp.we, ep.we, we);
                        lemma_muxed_grows(v2, self.vals(), cond, tp.addr, ep.addr, addr);
                    }
                    self.put_write_slot(ix, slot, WritePort { we, addr, data }, env);
                } else {
                    proof {
                        assert(slot_port(*env, name, slot as nat) == slot_port(env0, name, slot as nat));
                    }
                }
                proof {
                    lemma_join_step(self.vals(), vals_before, low0, cond, *then_env, *else_env, env0, env_before, *env, ix as int, slot as nat, base@, then_n@, else_n@);
                    assert forall|s: nat| #![trigger slot_port(*env, name, s)]
                        s < base@[ix as int] implies slot_port(*env, name, s) == slot_port(env0, name, s) by {
                        lemma_other_slot_same(env_before, *env, name, slot as nat, name, s);
                        assert(slot_port(env_before, name, s) == slot_port(env0, name, s));
                    }
                    assert forall|j: int, s: nat| #![trigger slot_port(*env, low0.mems@[j].name@, s)]
                        0 <= j < ix && (s < base@[j] || s >= (if then_n@[j] > else_n@[j] { then_n@[j] } else { else_n@[j] }))
                            implies slot_port(*env, low0.mems@[j].name@, s) == slot_port(env0, low0.mems@[j].name@, s) by {
                        assert(low0.mems@[j].name@ != name);
                        lemma_other_slot_same(env_before, *env, name, slot as nat, low0.mems@[j].name@, s);
                        assert(slot_port(env_before, low0.mems@[j].name@, s) == slot_port(env0, low0.mems@[j].name@, s));
                    }
                }
                slot = slot + 1;
            }
            self.set_mem_slots(ix, n);
            ix = ix + 1;
        }
    }
}

/// One slot of one memory after a two-way join, as `join_write_slots`
/// promises it.
pub open spec fn joined_slot(vals: Seq<ValueDef>, cond: ValueId, then_env: Env, else_env: Env, env0: Env, env: Env, m: Memory, s: nat) -> bool {
    let t = slot_port(then_env, m.name@, s);
    let e = slot_port(else_env, m.name@, s);
    if t is None && e is None {
        slot_port(env, m.name@, s) == slot_port(env0, m.name@, s)
    } else {
        &&& slot_port(env, m.name@, s) is Some
        &&& port_muxed(vals, cond, if t is Some { t->0 } else { m.idle }, if e is Some { e->0 } else { m.idle }, slot_port(env, m.name@, s)->0)
    }
}

/// Three values per slot for every slot a join may reconcile, from memory
/// `j` on.
pub open spec fn cost_from(tn: Seq<usize>, en: Seq<usize>, j: int) -> nat
    decreases tn.len() - j,
{
    if j < 0 || j >= tn.len() || j >= en.len() {
        0
    } else {
        3 * (if tn[j] > en[j] { tn[j] as nat } else { en[j] as nat }) + cost_from(tn, en, j + 1)
    }
}

proof fn lemma_cost_from_split(tn: Seq<usize>, en: Seq<usize>, j: int)
    requires
        0 <= j,
    ensures
        j < tn.len() && j < en.len() ==> cost_from(tn, en, j) == 3 * (if tn[j] > en[j] { tn[j] as nat } else { en[j] as nat }) + cost_from(tn, en, j + 1),
{
}

/// A port read out of an environment whose values exist has values that exist.
proof fn lemma_slot_port_ok(env: Env, name: Seq<char>, s: nat, n: nat)
    requires
        env_ok(env, n),
    ensures
        slot_port(env, name, s) is Some ==> write_port_ok(slot_port(env, name, s)->0, n),
{
    if slot_port(env, name, s) is Some {
        assert(env.value_of(we_key(name, s)) is Some);
        assert(env.value_of(addr_key(name, s)) is Some);
        assert(env.value_of(data_key(name, s)) is Some);
    }
}

/// Writing one slot's keys leaves every other slot's port as it was.
proof fn lemma_other_slot_same(old_env: Env, new_env: Env, n1: Seq<char>, s1: nat, n2: Seq<char>, s2: nat)
    requires
        forall|k: Seq<char>| !key_of_slot(k, n1, s1) ==> new_env.lookup(k) == old_env.lookup(k),
        n1 != n2 || s1 != s2,
    ensures
        slot_port(new_env, n2, s2) == slot_port(old_env, n2, s2),
{
    reveal_strlit("we");
    reveal_strlit("addr");
    reveal_strlit("data");
    let fs = seq!["we"@, "addr"@, "data"@];
    assert forall|i: int| 0 <= i < 3 implies !key_of_slot(port_key(n2, s2, #[trigger] fs[i]), n1, s1) by {
        let f = fs[i];
        let k = port_key(n2, s2, f);
        if k == we_key(n1, s1) {
            lemma_port_key_injective(n2, s2, f, n1, s1, "we"@);
        }
        if k == addr_key(n1, s1) {
            lemma_port_key_injective(n2, s2, f, n1, s1, "addr"@);
        }
        if k == data_key(n1, s1) {
            lemma_port_key_injective(n2, s2, f, n1, s1, "data"@);
        }
    }
    assert(!key_of_slot(we_key(n2, s2), n1, s1)) by { assert(fs[0] == "we"@); }
    assert(!key_of_slot(addr_key(n2, s2), n1, s1)) by { assert(fs[1] == "addr"@); }
    assert(!key_of_slot(data_key(n2, s2), n1, s1)) by { assert(fs[2] == "data"@); }
}

/// A memory no earlier memory shares a name with still has the ports it
/// started with, while only earlier memories' keys have changed.
proof fn lemma_untouched_slot(env: Env, env0: Env, low0: Lowerer, ix: int, s: nat)
    requires
        0 <= ix < low0.mems@.len(),
        names_distinct(low0.mems@),
        forall|k: Seq<char>| #![trigger env.lookup(k)]
            (forall|j: int, s: nat| 0 <= j < ix ==> !#[trigger] key_of_slot(k, low0.mems@[j].name@, s))
                ==> env.lookup(k) == env0.lookup(k),
    ensures
        slot_port(env, low0.mems@[ix].name@, s) == slot_port(env0, low0.mems@[ix].name@, s),
{
    reveal_strlit("we");
    reveal_strlit("addr");
    reveal_strlit("data");
    let name = low0.mems@[ix].name@;
    let fs = seq!["we"@, "addr"@, "data"@];
    assert forall|i: int| 0 <= i < 3 implies #[trigger] env.lookup(port_key(name, s, fs[i])) == env0.lookup(port_key(name, s, fs[i])) by {
        let k = port_key(name, s, fs[i]);
        assert forall|j: int, s2: nat| 0 <= j < ix implies !#[trigger] key_of_slot(k, low0.mems@[j].name@, s2) by {
            let nj = low0.mems@[j].name@;
            assert(nj != name);
            if k == we_key(nj, s2) {
                lemma_port_key_injective(name, s, fs[i], nj, s2, "we"@);
            }
            if k == addr_key(nj, s2) {
                lemma_port_key_injective(name, s, fs[i], nj, s2, "addr"@);
            }
            if k == data_key(nj, s2) {
                lemma_port_key_injective(name, s, fs[i], nj, s2, "data"@);
            }
        }
    }
    assert(env.lookup(we_key(name, s)) == env0.lookup(we_key(name, s))) by { assert(fs[0] == "we"@); }
    assert(env.lookup(addr_key(name, s)) == env0.lookup(addr_key(name, s))) by { assert(fs[1] == "addr"@); }
    assert(env.lookup(data_key(name, s)) == env0.lookup(data_key(name, s))) by { assert(fs[2] == "data"@); }
}

/// One step of the join's inner loop keeps what the loop promises.
proof fn lemma_join_step(
    vals: Seq<ValueDef>,
    vals_before: Seq<ValueDef>,
    low0: Lowerer,
    cond: ValueId,
    then_env: Env,
    else_env: Env,
    env0: Env,
    env_before: Env,
    env: Env,
    ix: int,
    slot: nat,
    base: Seq<usize>,
    tn: Seq<usize>,
    en: Seq<usize>,
)
    requires
        0 <= ix < low0.mems@.len(),
        names_distinct(low0.mems@),
        base.len() == low0.mems@.len(),
        tn.len() == low0.mems@.len(),
        en.len() == low0.mems@.len(),
        grows(vals_before, vals),
        grows(low0.vals(), vals_before),
        env_ok(then_env, low0.vals().len()),
        env_ok(else_env, low0.vals().len()),
        forall|j: int| 0 <= j < low0.mems@.len() ==> write_port_ok((#[trigger] low0.mems@[j]).idle, low0.vals().len()),
        vid_ok(cond, low0.vals().len()),
        forall|k: Seq<char>| !key_of_slot(k, low0.mems@[ix].name@, slot) ==> env.lookup(k) == env_before.lookup(k),
        joined_slot(vals, cond, then_env, else_env, env0, env, low0.mems@[ix], slot),
        forall|j: int, s: nat| #![trigger slot_port(env_before, low0.mems@[j].name@, s)]
            0 <= j < ix && base[j] <= s < (if tn[j] > en[j] { tn[j] } else { en[j] }) ==> joined_slot(vals_before, cond, then_env, else_env, env0, env_before, low0.mems@[j], s),
        forall|s: nat| #![trigger slot_port(env_before, low0.mems@[ix].name@, s)]
            base[ix] <= s < slot ==> joined_slot(vals_before, cond, then_env, else_env, env0, env_before, low0.mems@[ix], s),
        forall|s: nat| #![trigger slot_port(env_before, low0.mems@[ix].name@, s)]
            slot < s ==> slot_port(env_before, low0.mems@[ix].name@, s) == slot_port(env0, low0.mems@[ix].name@, s),
        forall|k: Seq<char>| #![trigger env_before.lookup(k)]
            (forall|j: int, s: nat| 0 <= j <= ix ==> !#[trigger] key_of_slot(k, low0.mems@[j].name@, s))
                ==> env_before.lookup(k) == env0.lookup(k),
    ensures
        forall|j: int, s: nat| #![trigger slot_port(env, low0.mems@[j].name@, s)]
            0 <= j < ix && base[j] <= s < (if tn[j] > en[j] { tn[j] } else { en[j] }) ==> joined_slot(vals, cond, then_env, else_env, env0, env, low0.mems@[j], s),
        forall|s: nat| #![trigger slot_port(env, low0.mems@[ix].name@, s)]
            base[ix] <= s < slot + 1 ==> joined_slot(vals, cond, then_env, else_env, env0, env, low0.mems@[ix], s),
        forall|s: nat| #![trigger slot_port(env, low0.mems@[ix].name@, s)]
            slot + 1 <= s ==> slot_port(env, low0.mems@[ix].name@, s) == slot_port(env0, low0.mems@[ix].name@, s),
        forall|k: Seq<char>| #![trigger env.lookup(k)]
            (forall|j: int, s: nat| 0 <= j <= ix ==> !#[trigger] key_of_slot(k, low0.mems@[j].name@, s))
                ==> env.lookup(k) == env0.lookup(k),
{
    let name = low0.mems@[ix].name@;
    assert forall|j: int, s: nat| #![trigger slot_port(env, low0.mems@[j].name@, s)]
        0 <= j < ix && base[j] <= s < (if tn[j] > en[j] { tn[j] } else { en[j] }) implies joined_slot(vals, cond, then_env, else_env, env0, env, low0.mems@[j], s) by {
        assert(low0.mems@[j].name@ != name);
        lemma_other_slot_same(env_before, env, name, slot, low0.mems@[j].name@, s);
        assert(slot_port(env_before, low0.mems@[j].name@, s) == slot_port(env_before, low0.mems@[j].name@, s));
        lemma_joined_slot_grows(vals_before, vals, low0, cond, then_env, else_env, env0, env, j, s);
    }
    assert forall|s: nat| #![trigger slot_port(env, low0.mems@[ix].name@, s)]
        base[ix] <= s < slot + 1 implies joined_slot(vals, cond, then_env, else_env, env0, env, low0.mems@[ix], s) by {
        if s < slot {
            lemma_other_slot_same(env_before, env, name, slot, name, s);
            assert(slot_port(env_before, name, s) == slot_port(env_before, name, s));
            lemma_joined_slot_grows(vals_before, vals, low0, cond, then_env, else_env, env0, env, ix, s);
        }
    }
    assert forall|s: nat| #![trigger slot_port(env, low0.mems@[ix].name@, s)]
        slot + 1 <= s implies slot_port(env, low0.mems@[ix].name@, s) == slot_port(env0, low0.mems@[ix].name@, s) by {
        lemma_other_slot_same(env_before, env, name, slot, name, s);
        assert(slot_port(env_before, name, s) == slot_port(env0, name, s));
    }
    assert forall|k: Seq<char>| #![trigger env.lookup(k)]
        (forall|j: int, s: nat| 0 <= j <= ix ==> !#[trigger] key_of_slot(k, low0.mems@[j].name@, s))
            implies env.lookup(k) == env0.lookup(k) by {
        assert(!key_of_slot(k, low0.mems@[ix].name@, slot));
        assert(env_before.lookup(k) == env0.lookup(k));
    }
}

/// What a join promised of a slot stays true as values are added, as long as
/// the slot's port is unchanged.
proof fn lemma_joined_slot_grows(
    vals_before: Seq<ValueDef>,
    vals: Seq<ValueDef>,
    low0: Lowerer,
    cond: ValueId,
    then_env: Env,
    else_env: Env,
    env0: Env,
    env: Env,
    j: int,
    s: nat,
)
    requires
        0 <= j < low0.mems@.len(),
        grows(vals_before, vals),
        grows(low0.vals(), vals_before),
        env_ok(then_env, low0.vals().len()),
        env_ok(else_env, low0.vals().len()),
        forall|i: int| 0 <= i < low0.mems@.len() ==> write_port_ok((#[trigger] low0.mems@[i]).idle, low0.vals().len()),
        exists|env_before: Env| joined_slot(vals_before, cond, then_env, else_env, env0, env_before, low0.mems@[j], s)
            && slot_port(env, low0.mems@[j].name@, s) == slot_port(env_before, low0.mems@[j].name@, s),
    ensures
        joined_slot(vals, cond, then_env, else_env, env0, env, low0.mems@[j], s),
{
    let env_before = choose|env_before: Env| joined_slot(vals_before, cond, then_env, else_env, env0, env_before, low0.mems@[j], s)
        && slot_port(env, low0.mems@[j].name@, s) == slot_port(env_before, low0.mems@[j].name@, s);
    let m = low0.mems@[j];
    let t = slot_port(then_env, m.name@, s);
    let e = slot_port(else_env, m.name@, s);
    lemma_slot_port_ok(then_env, m.name@, s, low0.vals().len());
    lemma_slot_port_ok(else_env, m.name@, s, low0.vals().len());
    assert(write_port_ok(m.idle, low0.vals().len()));
    if !(t is None && e is None) {
        let tp = if t is Some { t->0 } else { m.idle };
        let ep = if e is Some { e->0 } else { m.idle };
        let w = slot_port(env, m.name@, s)->0;
        assert(vid_ok(tp.we, vals_before.len()) && vid_ok(tp.addr, vals_before.len()) && vid_ok(tp.data, vals_before.len()));
        assert(vid_ok(ep.we, vals_before.len()) && vid_ok(ep.addr, vals_before.len()) && vid_ok(ep.data, vals_before.len()));
        lemma_muxed_grows(vals_before, vals, cond, tp.we, ep.we, w.we);
        lemma_muxed_grows(vals_before, vals, cond, tp.addr, ep.addr, w.addr);
        lemma_muxed_grows(vals_before, vals, cond, tp.data, ep.data, w.data);
    }
}

/// Follows `gate ? x : _` down to `x` for as long as the mux is selected by
/// exactly `gate`.
pub open spec fn drop_gated(vals: Seq<ValueDef>, v: ValueId, gate: ValueId) -> ValueId
    decreases v.0,
{
    if (v.0 as int) < vals.len() {
        match vals[v.0 as int].op {
            Op::Mux { cond, then_val, .. } => if cond == gate && then_val.0 < v.0 {
                drop_gated(vals, then_val, gate)
            } else {
                v
            },
            _ => v,
        }
    } else {
        v
    }
}

/// `r` is `a & b`: one operand itself when the other is the constant 1, or
/// an `and`.
pub open spec fn anded(vals: Seq<ValueDef>, a: ValueId, b: ValueId, r: ValueId) -> bool {
    ||| r == a && vals[b.0 as int].op == Op::Const(1)
    ||| r == b && vals[a.0 as int].op == Op::Const(1)
    ||| (r.0 as int) < vals.len() && vals[r.0 as int].op == (Op::Bin { op: BinOp::And, lhs: a, rhs: b })
}

impl Lowerer {
    /// What each memory's write-port count is right now, for a branch to
    /// restore between its arms and reconcile after them.
    pub fn mem_slot_counts(&self) -> (r: Vec<usize>)
        ensures
            r@ == self.slots(),
    {
        let mut r: Vec<usize> = Vec::new();
        let mut i: usize = 0;
        while i < self.mem_slots.len()
            invariant
                i <= self.slots().len(),
                r@ == self.slots().take(i as int),
            decreases self.slots().len() - i,
        {
            r.push(self.mem_slots[i]);
            proof {
                assert(self.slots().take(i + 1) =~= self.slots().take(i as int).push(self.slots()[i as int]));
            }
            i = i + 1;
        }
        proof {
            assert(self.slots().take(i as int) =~= self.slots());
        }
        r
    }

    /// Restores those counts.
    pub fn set_mem_slot_counts(&mut self, counts: &[usize])
        requires
            old(self).inv(),
            counts@.len() == old(self).slots().len(),
        ensures
            final(self).inv(),
            final(self).slots() == counts@,
            final(self).vals() == old(self).vals(),
            final(self).mems == old(self).mems,
            final(self).pipes == old(self).pipes,
            final(self).path_view() == old(self).path_view(),
            final(self).asserts == old(self).asserts,
    {
        let mut i: usize = 0;
        while i < counts.len()
            invariant
                self.inv(),
                i <= counts@.len(),
                counts@.len() == self.slots().len(),
                self.vals() == old(self).vals(),
                self.mems == old(self).mems,
                self.pipes == old(self).pipes,
                self.path_view() == old(self).path_view(),
                self.asserts == old(self).asserts,
                forall|j: int| 0 <= j < i ==> self.slots()[j] == counts@[j],
            decreases counts@.len() - i,
        {
            self.set_mem_slots(i, counts[i]);
            i = i + 1;
        }
        proof {
            assert(self.slots() =~= counts@);
        }
    }

    /// The index of the memory called `name`.
    pub fn mem_index(&self, name: &str) -> (r: Option<usize>)
        ensures
            match r {
                Some(i) => i < self.mems@.len() && self.mems@[i as int].name@ == name@ && forall|j: int|
                    0 <= j < i ==> self.mems@[j].name@ != name@,
                None => forall|j: int| 0 <= j < self.mems@.len() ==> self.mems@[j].name@ != name@,
            },
    {
        let want = String::from_str(name);
        let mut i: usize = 0;
        while i < self.mems.len()
            invariant
                i <= self.mems@.len(),
                want@ == name@,
                forall|j: int| 0 <= j < i ==> self.mems@[j].name@ != name@,
            decreases self.mems@.len() - i,
        {
            if self.mems[i].name == want {
                return Some(i);
            }
            i = i + 1;
        }
        None
    }

    /// Strips `gate ? x : <idle>` from a value the write enable already gates.
    ///
    /// The SSA join gives the address and the data the same mux it gives the
    /// write enable, because it does not know the three belong together. When
    /// the enable is false the write does not happen, so the address and the
    /// data are don't-cares -- but only when the mux is selected by exactly
    /// that enable, which is why this compares value ids rather than trying to
    /// prove an implication.
    pub fn drop_gated_mux(&self, value: ValueId, gate: ValueId) -> (r: ValueId)
        requires
            self.inv(),
            vid_ok(value, self.vals().len()),
        ensures
            r == drop_gated(self.vals(), value, gate),
            vid_ok(r, self.vals().len()),
    {
        let mut v = value;
        loop
            invariant
                self.inv(),
                vid_ok(v, self.vals().len()),
                drop_gated(self.vals(), v, gate) == drop_gated(self.vals(), value, gate),
            decreases v.0,
        {
            let next = match &self.values[v.0 as usize].op {
                Op::Mux { cond, then_val, .. } => if *cond == gate {
                    Some(*then_val)
                } else {
                    None
                },
                _ => None,
            };
            match next {
                Some(t) => {
                    proof {
                        assert(crate::ir::op_ok(self.vals()[v.0 as int].op, v.0 as nat, self.ports_view().len(), self.mems@.len()));
                    }
                    v = t;
                },
                None => {
                    return v;
                },
            }
        }
    }

    /// Forgets every write port, for a state that starts its own.
    pub fn clear_write_slots(&mut self, env: &mut Env)
        requires
            old(self).inv(),
        ensures
            final(self).inv(),
            final(self).vals() == old(self).vals(),
            final(self).mems == old(self).mems,
            final(self).pipes == old(self).pipes,
            final(self).path_view() == old(self).path_view(),
            final(self).asserts == old(self).asserts,
            final(self).slots().len() == old(self).slots().len(),
            forall|j: int| 0 <= j < old(self).slots().len() ==> #[trigger] final(self).slots()[j] == 0,
            forall|j: int, s: nat| #![trigger slot_port(*final(env), old(self).mems@[j].name@, s)]
                0 <= j < old(self).mems@.len() && s < old(self).slots()[j] ==> slot_port(*final(env), old(self).mems@[j].name@, s) is None,
            forall|k: Seq<char>| #![trigger final(env).lookup(k)]
                (forall|j: int, s: nat| 0 <= j < old(self).mems@.len() ==> !#[trigger] key_of_slot(k, old(self).mems@[j].name@, s))
                    ==> final(env).lookup(k) == old(env).lookup(k),
    {
        let ghost low0 = *self;
        let ghost env0 = *env;
        let nm = self.mems.len();
        let mut ix: usize = 0;
        while ix < nm
            invariant
                self.inv(),
                nm == self.mems@.len(),
                ix <= nm,
                self.vals() == low0.vals(),
                self.mems == low0.mems,
                self.pipes == low0.pipes,
                self.path_view() == low0.path_view(),
                self.asserts == low0.asserts,
                self.slots().len() == nm,
                low0.slots().len() == nm,
                forall|j: int| 0 <= j < ix ==> #[trigger] self.slots()[j] == 0,
                forall|j: int| ix <= j < nm ==> #[trigger] self.slots()[j] == low0.slots()[j],
                forall|j: int, s: nat| #![trigger slot_port(*env, low0.mems@[j].name@, s)]
                    0 <= j < ix && s < low0.slots()[j] ==> slot_port(*env, low0.mems@[j].name@, s) is None,
                forall|k: Seq<char>| #![trigger env.lookup(k)]
                    (forall|j: int, s: nat| 0 <= j < ix ==> !#[trigger] key_of_slot(k, low0.mems@[j].name@, s))
                        ==> env.lookup(k) == env0.lookup(k),
            decreases nm - ix,
        {
            let n = self.mem_slots[ix];
            let mut slot: usize = 0;
            while slot < n
                invariant
                    self.inv(),
                    nm == self.mems@.len(),
                    ix < nm,
                    n == low0.slots()[ix as int],
                    slot <= n,
                    self.vals() == low0.vals(),
                    self.mems == low0.mems,
                    self.pipes == low0.pipes,
                    self.path_view() == low0.path_view(),
                    self.asserts == low0.asserts,
                    self.slots().len() == nm,
                    low0.slots().len() == nm,
                    forall|j: int| 0 <= j < ix ==> #[trigger] self.slots()[j] == 0,
                    forall|j: int| ix <= j < nm ==> #[trigger] self.slots()[j] == low0.slots()[j],
                    forall|j: int, s: nat| #![trigger slot_port(*env, low0.mems@[j].name@, s)]
                        0 <= j < ix && s < low0.slots()[j] ==> slot_port(*env, low0.mems@[j].name@, s) is None,
                    forall|s: nat| #![trigger slot_port(*env, low0.mems@[ix as int].name@, s)]
                        s < slot ==> slot_port(*env, low0.mems@[ix as int].name@, s) is None,
                    forall|k: Seq<char>| #![trigger env.lookup(k)]
                        (forall|j: int, s: nat| 0 <= j <= ix ==> !#[trigger] key_of_slot(k, low0.mems@[j].name@, s))
                            ==> env.lookup(k) == env0.lookup(k),
                decreases n - slot,
            {
                let (we, addr, data) = Self::mem_port_keys(self.mems[ix].name.as_str(), slot);
                let ghost before = *env;
                env.remove(we.as_str());
                env.remove(addr.as_str());
                env.remove(data.as_str());
                proof {
                    let name = low0.mems@[ix as int].name@;
                    assert forall|k: Seq<char>| !key_of_slot(k, name, slot as nat) implies env.lookup(k) == before.lookup(k) by {}
                    assert forall|j: int, s: nat| #![trigger slot_port(*env, low0.mems@[j].name@, s)]
                        0 <= j < ix && s < low0.slots()[j] implies slot_port(*env, low0.mems@[j].name@, s) is None by {
                        assert(slot_port(before, low0.mems@[j].name@, s) is None);
                        lemma_other_slot_none(before, *env, name, slot as nat, low0.mems@[j].name@, s);
                    }
                    assert forall|s: nat| #![trigger slot_port(*env, name, s)]
                        s < slot + 1 implies slot_port(*env, name, s) is None by {
                        if s < slot {
                            assert(slot_port(before, name, s) is None);
                            lemma_other_slot_none(before, *env, name, slot as nat, name, s);
                        }
                    }
                    assert forall|k: Seq<char>| #![trigger env.lookup(k)]
                        (forall|j: int, s: nat| 0 <= j <= ix ==> !#[trigger] key_of_slot(k, low0.mems@[j].name@, s))
                            implies env.lookup(k) == env0.lookup(k) by {
                        assert(!key_of_slot(k, name, slot as nat));
                        assert(before.lookup(k) == env0.lookup(k));
                    }
                }
                slot = slot + 1;
            }
            self.set_mem_slots(ix, 0);
            ix = ix + 1;
        }
    }
}

/// A slot emptied stays empty while another slot is rewritten.
proof fn lemma_other_slot_none(old_env: Env, new_env: Env, n1: Seq<char>, s1: nat, n2: Seq<char>, s2: nat)
    requires
        forall|k: Seq<char>| !key_of_slot(k, n1, s1) ==> new_env.lookup(k) == old_env.lookup(k),
        slot_port(old_env, n2, s2) is None,
    ensures
        (n1 != n2 || s1 != s2) ==> slot_port(new_env, n2, s2) is None,
{
    if n1 != n2 || s1 != s2 {
        lemma_other_slot_same(old_env, new_env, n1, s1, n2, s2);
    }
}

impl Lowerer {
    /// Declares a memory, its idle write port and the binding a subscript
    /// reaches. `len - 1` rather than `len` sizes the address: 32 entries are
    /// addressed by 5 bits.
    pub fn declare_memory(&mut self, name: String, elem: Ty, len: u32, kind: MemKind, reset: Option<u128>, env: &mut Env) -> (ix: usize)
        requires
            old(self).inv(),
            old(self).room(3),
            old(self).mems@.len() + 1 < u32::MAX,
            len >= 1,
            width(elem) <= u32::MAX,
        ensures
            final(self).inv(),
            ix == old(self).mems@.len(),
            final(self).mems@.len() == old(self).mems@.len() + 1,
            final(self).mems@.take(ix as int) == old(self).mems@,
            ({
                let m = final(self).mems@[ix as int];
                let n0 = old(self).vals().len();
                &&& m.name@ == name@
                &&& m.elem == elem
                &&& m.len == len
                &&& m.kind == kind
                &&& m.addr_width as nat == bits_needed((len - 1) as nat)
                &&& m.reset == reset
                &&& m.write@.len() == 0
                &&& m.read@.len() == 0
                &&& m.idle == (WritePort { we: ValueId(n0 as u32), addr: ValueId((n0 + 1) as u32), data: ValueId((n0 + 2) as u32) })
            }),
            final(self).vals().len() == old(self).vals().len() + 3,
            final(self).vals().take(old(self).vals().len() as int) == old(self).vals(),
            final(self).vals()[old(self).vals().len() as int].op == Op::Const(0),
            final(self).vals()[old(self).vals().len() as int].ty == bool_ty(),
            final(self).vals()[old(self).vals().len() + 1int].op == Op::Const(0),
            final(self).vals()[old(self).vals().len() + 1int].ty == Ty::UInt(final(self).mems@[ix as int].addr_width),
            final(self).vals()[old(self).vals().len() + 2int].op == Op::Const(0),
            final(self).vals()[old(self).vals().len() + 2int].ty == elem,
            final(self).slots() == old(self).slots().push(0),
            final(self).pipes == old(self).pipes,
            final(self).path_view() == old(self).path_view(),
            final(self).asserts == old(self).asserts,
            final(env).lookup(name@) == Some(crate::env::Binding {
                value: None,
                ty: Ty::Mem { elem: Box::new(elem), len, kind },
                is_output: false,
                is_mutable: false,
            }),
            forall|k: Seq<char>| k != name@ ==> final(env).lookup(k) == old(env).lookup(k),
    {
        let addr_width = bits_for((len - 1) as u128);
        let ghost v0 = self.vals();
        let we = self.emit(bool_type(), Op::Const(0));
        let ghost v1 = self.vals();
        let addr = self.emit(Ty::UInt(addr_width), Op::Const(0));
        let ghost v2 = self.vals();
        let data = self.emit(elem.clone(), Op::Const(0));
        let idle = WritePort { we, addr, data };
        let mem_ty = Ty::Mem { elem: Box::new(elem.clone()), len, kind };
        // A memory is reached by subscript, never assigned as a whole.
        env.insert(name.clone(), crate::env::Binding { value: None, ty: mem_ty, is_output: false, is_mutable: false });
        let ix = self.mems.len();
        self.mems.push(Memory {
            name,
            elem,
            len,
            kind,
            addr_width,
            reset,
            write: Vec::new(),
            idle,
            read: Vec::new(),
        });
        self.mem_slots.push(0);
        proof {
            assert(self.vals().take(v0.len() as int) =~= v0);
            assert(v1[v0.len() as int] == self.vals()[v0.len() as int]);
            assert(v2[v0.len() + 1int] == self.vals()[v0.len() + 1int]);
            let n = self.vals().len();
            assert forall|j: int| 0 <= j < self.mems@.len() implies crate::ir::mem_ok(#[trigger] self.mems@[j], n)
                && width(self.mems@[j].elem) <= u32::MAX by {
                if j < ix {
                    assert(self.mems@[j] == old(self).mems@[j]);
                    assert(crate::ir::mem_ok(old(self).mems@[j], v0.len()));
                }
            }
            assert forall|j: int| 0 <= j < self.pipes@.len() implies pipe_ok(#[trigger] self.pipes@[j], n, self.ports_view().len()) by {
                assert(pipe_ok(old(self).pipes@[j], v0.len(), old(self).ports_view().len()));
            }
            assert forall|j: int| 0 <= j < self.path_view().len() implies term_ok(#[trigger] self.path_view()[j], n) by {
                assert(term_ok(old(self).path_view()[j], v0.len()));
            }
            assert forall|j: int| 0 <= j < self.asserts@.len() implies vid_ok((#[trigger] self.asserts@[j]).cond, n) by {
                assert(vid_ok(old(self).asserts@[j].cond, v0.len()));
            }
            assert forall|i: int| 0 <= i < n implies #[trigger] self.vals()[i].id.0 == i && crate::ir::op_ok(
                self.vals()[i].op, i as nat, self.ports_view().len(), self.mems@.len()) by {
                assert(crate::ir::op_ok(self.vals()[i].op, i as nat, self.ports_view().len(), old(self).mems@.len()));
            }
            assert(self.mems@.take(ix as int) =~= old(self).mems@);
        }
        ix
    }

    /// Coerces `value` to `want` when it is a constant that provably fits,
    /// re-materialising it at the wanted type. A value already of that type
    /// is answered as it is; anything else is `None`, the user's decision to
    /// write explicitly.
    pub fn coerce_const_pub(&mut self, value: ValueId, want: &Ty) -> (r: Option<ValueId>)
        requires
            old(self).inv(),
            old(self).room(1),
            vid_ok(value, old(self).vals().len()),
            width(*want) <= u32::MAX,
        ensures
            final(self).inv(),
            final(self).adds(old(self), 1),
            ({
                let d = old(self).vals()[value.0 as int];
                if crate::ty::same_ty(d.ty, *want) {
                    r == Some(value) && final(self).vals() == old(self).vals()
                } else if d.op is Const && fits(d.op->Const_0 as nat, *want) {
                    r == Some(ValueId(old(self).vals().len() as u32)) && final(self).vals() == old(self).vals().push(
                        ValueDef { id: ValueId(old(self).vals().len() as u32), ty: *want, op: d.op, name: None })
                } else {
                    r is None && final(self).vals() == old(self).vals()
                }
            }),
    {
        self.coerce_const(value, want)
    }

    /// Coerces `value` to `want`, inserting a new constant only when the
    /// value is a constant that provably fits.
    pub(crate) fn coerce_const(&mut self, value: ValueId, want: &Ty) -> (r: Option<ValueId>)
        requires
            old(self).inv(),
            old(self).room(1),
            vid_ok(value, old(self).vals().len()),
            width(*want) <= u32::MAX,
        ensures
            final(self).inv(),
            final(self).adds(old(self), 1),
            ({
                let d = old(self).vals()[value.0 as int];
                if crate::ty::same_ty(d.ty, *want) {
                    r == Some(value) && final(self).vals() == old(self).vals()
                } else if d.op is Const && fits(d.op->Const_0 as nat, *want) {
                    r == Some(ValueId(old(self).vals().len() as u32)) && final(self).vals() == old(self).vals().push(
                        ValueDef { id: ValueId(old(self).vals().len() as u32), ty: *want, op: d.op, name: None })
                } else {
                    r is None && final(self).vals() == old(self).vals()
                }
            }),
    {
        let have = self.ty_of(value);
        if have.same(want) {
            proof { lemma_adds_none(self); }
            return Some(value);
        }
        let konst = match &self.values[value.0 as usize].op {
            Op::Const(k) => *k,
            _ => {
                proof { lemma_adds_none(self); }
                return None;
            },
        };
        if !literal_fits(konst, want) {
            proof { lemma_adds_none(self); }
            return None;
        }
        let ghost vb = self.vals();
        let r = self.emit(want.clone(), Op::Const(konst));
        proof { lemma_emitted(vb, *want, Op::Const(konst)); }
        Some(r)
    }

    /// Adapts an index to a memory's address width.
    ///
    /// A narrower index is zero-extended, because an address that cannot
    /// reach the whole array is not an error; a constant one is
    /// re-materialised at the address width, so an unrolled `for` reads
    /// `mem[2'd1]`. A wider one is refused: dropping high address bits
    /// silently would turn an out-of-range access into a different in-range
    /// one. So is a signed one. `what` is the index as the source spells it,
    /// `at` where it is.
    pub fn fit_address(&mut self, idx: ValueId, want: u32, at: Span, what: &str, sink: &mut DiagSink) -> (r: Option<ValueId>)
        requires
            old(self).inv(),
            old(self).room(1),
            vid_ok(idx, old(self).vals().len()),
            width(old(self).vals()[idx.0 as int].ty) <= u32::MAX,
        ensures
            final(self).inv(),
            final(self).adds(old(self), 1),
            *final(sink).map == *old(sink).map,
            ({
                let have = old(self).vals()[idx.0 as int].ty;
                let w = width(have);
                if have is SInt {
                    &&& r is None
                    &&& final(self).vals() == old(self).vals()
                    &&& final(sink).diags@.len() == old(sink).diags@.len() + 1
                    &&& final(sink).diags@.last().severity == crate::diag::Severity::Error
                    &&& final(sink).diags@.last().span == Some(at)
                    &&& final(sink).diags@.last().msg@ == "an address must be unsigned, found `"@ + ty_text(have) + "`"@
                } else if w == want {
                    r == Some(idx) && final(self).vals() == old(self).vals() && final(sink).diags@ == old(sink).diags@
                } else if w < want {
                    &&& final(sink).diags@ == old(sink).diags@
                    &&& r == Some(ValueId(old(self).vals().len() as u32))
                    &&& final(self).vals() == old(self).vals().push(ValueDef {
                        id: ValueId(old(self).vals().len() as u32),
                        ty: Ty::UInt(want),
                        op: if old(self).vals()[idx.0 as int].op is Const {
                            old(self).vals()[idx.0 as int].op
                        } else {
                            Op::ZExt { arg: idx, to: want }
                        },
                        name: None,
                    })
                } else {
                    &&& r is None
                    &&& final(self).vals() == old(self).vals()
                    &&& final(sink).diags@.len() == old(sink).diags@.len() + 1
                    &&& final(sink).diags@.last().severity == crate::diag::Severity::Error
                    &&& final(sink).diags@.last().span == Some(at)
                    &&& final(sink).diags@.last().msg@ == "an index of `"@ + what@ + "` is "@ + dec(w) + " bits wide, but this memory is addressed by "@ + dec(want as nat)
                    &&& final(sink).diags@.last().note is Some
                    &&& final(sink).diags@.last().note->0@ == "narrow it with `@trunc(x, "@ + dec(want as nat) + ")`"@
                }
            }),
    {
        let have = self.ty_of(idx);
        if have.is_signed() {
            let mut msg = String::from_str("an address must be unsigned, found `");
            msg.append(have.display().as_str());
            msg.append("`");
            sink.err_span(at, msg);
            proof { lemma_adds_none(self); }
            return None;
        }
        let w = have.bit_width();
        if w == want {
            proof { lemma_adds_none(self); }
            return Some(idx);
        }
        if w < want {
            let ghost vb = self.vals();
            let r = match self.values[idx.0 as usize].op {
                Op::Const(k) => {
                    let r = self.emit(Ty::UInt(want), Op::Const(k));
                    proof { lemma_emitted(vb, Ty::UInt(want), Op::Const(k)); }
                    r
                },
                _ => {
                    let r = self.emit(Ty::UInt(want), Op::ZExt { arg: idx, to: want });
                    proof { lemma_emitted(vb, Ty::UInt(want), Op::ZExt { arg: idx, to: want }); }
                    r
                },
            };
            return Some(r);
        }
        let mut msg = String::from_str("an index of `");
        msg.append(what);
        msg.append("` is ");
        push_decimal(&mut msg, w as u64);
        msg.append(" bits wide, but this memory is addressed by ");
        push_decimal(&mut msg, want as u64);
        let mut note = String::from_str("narrow it with `@trunc(x, ");
        push_decimal(&mut note, want as u64);
        note.append(")`");
        sink.push(Diag::error(at, msg).with_note(note));
        proof { lemma_adds_none(self); }
        None
    }
}

/// The slots below `n` of memory `name` that hold a whole port, in order.
pub open spec fn live_slots(env: Env, name: Seq<char>, n: nat) -> Seq<nat>
    decreases n,
{
    if n == 0 {
        Seq::empty()
    } else {
        let prev = live_slots(env, name, (n - 1) as nat);
        if slot_port(env, name, (n - 1) as nat) is Some {
            prev.push((n - 1) as nat)
        } else {
            prev
        }
    }
}

/// The write port a memory is left with for one live slot's port `p`: its
/// enable cut by `stop` when the process stops, the address and data freed
/// of muxes that enable already selects.
pub open spec fn settled_port(vals: Seq<ValueDef>, p: WritePort, stop: Option<ValueId>, w: WritePort) -> bool {
    &&& match stop {
        None => w.we == p.we,
        Some(r) => anded(vals, p.we, r, w.we),
    }
    &&& w.addr == drop_gated(vals, p.addr, w.we)
    &&& w.data == drop_gated(vals, p.data, w.we)
}

proof fn lemma_drop_gated_grows(a: Seq<ValueDef>, b: Seq<ValueDef>, v: ValueId, gate: ValueId)
    requires
        grows(a, b),
        vid_ok(v, a.len()),
    ensures
        drop_gated(b, v, gate) == drop_gated(a, v, gate),
    decreases v.0,
{
    assert(b[v.0 as int].op == a[v.0 as int].op);
    match a[v.0 as int].op {
        Op::Mux { cond, then_val, .. } => {
            if cond == gate && then_val.0 < v.0 {
                lemma_drop_gated_grows(a, b, then_val, gate);
            }
        },
        _ => {},
    }
}

proof fn lemma_settled_grows(a: Seq<ValueDef>, b: Seq<ValueDef>, p: WritePort, stop: Option<ValueId>, w: WritePort)
    requires
        grows(a, b),
        settled_port(a, p, stop, w),
        write_port_ok(p, a.len()),
        vid_ok(w.we, a.len()),
        match stop {
            Some(r) => vid_ok(r, a.len()),
            None => true,
        },
    ensures
        settled_port(b, p, stop, w),
{
    lemma_drop_gated_grows(a, b, p.addr, w.we);
    lemma_drop_gated_grows(a, b, p.data, w.we);
    match stop {
        Some(r) => {
            assert(b[p.we.0 as int].op == a[p.we.0 as int].op);
            assert(b[r.0 as int].op == a[r.0 as int].op);
            if (w.we.0 as int) < a.len() {
                assert(b[w.we.0 as int].op == a[w.we.0 as int].op);
            }
        },
        None => {},
    }
}

proof fn lemma_drop_gated_ok(vals: Seq<ValueDef>, v: ValueId, gate: ValueId, np: nat, nm: nat)
    requires
        crate::ir::values_ok(vals, np, nm),
        vid_ok(v, vals.len()),
    ensures
        vid_ok(drop_gated(vals, v, gate), vals.len()),
    decreases v.0,
{
    assert(crate::ir::op_ok(vals[v.0 as int].op, v.0 as nat, np, nm));
    match vals[v.0 as int].op {
        Op::Mux { cond, then_val, .. } => {
            if cond == gate && then_val.0 < v.0 {
                lemma_drop_gated_ok(vals, then_val, gate, np, nm);
            }
        },
        _ => {},
    }
}

impl Lowerer {
    /// Reads back the write ports each memory was left with at the end of
    /// the body, so what the source did decides what the write ports carry.
    pub fn settle_memories(&mut self, env: &Env)
        requires
            old(self).inv(),
            env_ok(*env, old(self).vals().len()),
            old(self).vals().len() + sum_from(old(self).slots(), 0) < u32::MAX,
        ensures
            final(self).inv(),
            grows(old(self).vals(), final(self).vals()),
            final(self).slots() == old(self).slots(),
            final(self).pipes == old(self).pipes,
            final(self).path_view() == old(self).path_view(),
            final(self).asserts == old(self).asserts,
            final(self).mems@.len() == old(self).mems@.len(),
            forall|j: int| #![trigger final(self).mems@[j]] 0 <= j < old(self).mems@.len() ==> {
                let m = old(self).mems@[j];
                let f = final(self).mems@[j];
                let live = live_slots(*env, m.name@, old(self).slots()[j] as nat);
                &&& f.name == m.name
                &&& f.elem == m.elem
                &&& f.len == m.len
                &&& f.kind == m.kind
                &&& f.addr_width == m.addr_width
                &&& f.reset == m.reset
                &&& f.idle == m.idle
                &&& f.read == m.read
                &&& f.write@.len() == live.len()
                &&& forall|i: int| 0 <= i < live.len() ==> settled_port(final(self).vals(),
                    slot_port(*env, m.name@, live[i])->0, old(self).stop_writes, #[trigger] f.write@[i])
            },
    {
        let ghost low0 = *self;
        let nm = self.mems.len();
        let mut ix: usize = 0;
        proof {
            lemma_sum_from_split(low0.slots(), 0);
        }
        while ix < nm
            invariant
                self.inv(),
                low0.inv(),
                nm == self.mems@.len(),
                nm == low0.mems@.len(),
                ix <= nm,
                grows(low0.vals(), self.vals()),
                self.slots() == low0.slots(),
                self.pipes == low0.pipes,
                self.path_view() == low0.path_view(),
                self.asserts == low0.asserts,
                self.stop_writes == low0.stop_writes,
                env_ok(*env, low0.vals().len()),
                self.vals().len() + sum_from(low0.slots(), ix as int) < u32::MAX,
                forall|j: int| ix <= j < nm ==> #[trigger] self.mems@[j] == low0.mems@[j],
                forall|j: int| #![trigger self.mems@[j]] 0 <= j < ix ==> {
                    let m = low0.mems@[j];
                    let f = self.mems@[j];
                    let live = live_slots(*env, m.name@, low0.slots()[j] as nat);
                    &&& f.name == m.name
                    &&& f.elem == m.elem
                    &&& f.len == m.len
                    &&& f.kind == m.kind
                    &&& f.addr_width == m.addr_width
                    &&& f.reset == m.reset
                    &&& f.idle == m.idle
                    &&& f.read == m.read
                    &&& f.write@.len() == live.len()
                    &&& forall|i: int| 0 <= i < live.len() ==> settled_port(self.vals(),
                        slot_port(*env, m.name@, live[i])->0, low0.stop_writes, #[trigger] f.write@[i])
                },
            decreases nm - ix,
        {
            let ghost vals_outer = self.vals();
            let ghost mems_outer = self.mems;
            let n = self.mem_slots[ix];
            let ghost name = low0.mems@[ix as int].name@;
            let mut ports: Vec<WritePort> = Vec::new();
            let mut slot: usize = 0;
            proof {
                lemma_sum_from_split(low0.slots(), ix as int);
            }
            while slot < n
                invariant
                    self.inv(),
                    low0.inv(),
                    nm == self.mems@.len(),
                    ix < nm,
                    n == low0.slots()[ix as int],
                    slot <= n,
                    name == low0.mems@[ix as int].name@,
                    name == self.mems@[ix as int].name@,
                    grows(low0.vals(), self.vals()),
                    grows(vals_outer, self.vals()),
                    self.slots() == low0.slots(),
                    self.pipes == low0.pipes,
                    self.mems == mems_outer,
                    self.path_view() == low0.path_view(),
                    self.asserts == low0.asserts,
                    self.stop_writes == low0.stop_writes,
                    env_ok(*env, low0.vals().len()),
                    self.vals().len() + (n - slot) + sum_from(low0.slots(), ix + 1) < u32::MAX,
                    ports@.len() == live_slots(*env, name, slot as nat).len(),
                    forall|i: int| 0 <= i < ports@.len() ==> write_port_ok(#[trigger] ports@[i], self.vals().len()),
                    forall|i: int| 0 <= i < ports@.len() ==> settled_port(self.vals(),
                        slot_port(*env, name, live_slots(*env, name, slot as nat)[i])->0, low0.stop_writes, #[trigger] ports@[i]),
                decreases n - slot,
            {
                let ghost vb = self.vals();
                proof {
                    lemma_slot_port_ok(*env, name, slot as nat, low0.vals().len());
                    assert(live_slots(*env, name, (slot + 1) as nat) == (if slot_port(*env, name, slot as nat) is Some {
                        live_slots(*env, name, slot as nat).push(slot as nat)
                    } else {
                        live_slots(*env, name, slot as nat)
                    }));
                }
                match self.write_slot(ix, slot, env) {
                    None => {},
                    Some(p) => {
                        let we = match self.stop_writes {
                            None => p.we,
                            Some(r) => self.and_of(p.we, r),
                        };
                        let addr = self.drop_gated_mux(p.addr, we);
                        let data = self.drop_gated_mux(p.data, we);
                        let w = WritePort { we, addr, data };
                        proof {
                            lemma_drop_gated_ok(self.vals(), p.addr, we, self.ports_view().len(), self.mems@.len());
                            lemma_drop_gated_ok(self.vals(), p.data, we, self.ports_view().len(), self.mems@.len());
                            assert forall|i: int| 0 <= i < ports@.len() implies settled_port(self.vals(),
                                slot_port(*env, name, live_slots(*env, name, slot as nat)[i])->0, low0.stop_writes, #[trigger] ports@[i]) by {
                                let q = live_slots(*env, name, slot as nat)[i];
                                lemma_live_slots_below(*env, name, slot as nat, i);
                                lemma_slot_port_ok(*env, name, q, low0.vals().len());
                                lemma_settled_grows(vb, self.vals(), slot_port(*env, name, q)->0, low0.stop_writes, ports@[i]);
                            }
                        }
                        ports.push(w);
                    },
                }
                slot = slot + 1;
            }
            proof {
                assert forall|j: int| #![trigger self.mems@[j]] 0 <= j < ix implies {
                    let m = low0.mems@[j];
                    let f = self.mems@[j];
                    let live = live_slots(*env, m.name@, low0.slots()[j] as nat);
                    forall|i: int| 0 <= i < live.len() ==> settled_port(self.vals(),
                        slot_port(*env, m.name@, live[i])->0, low0.stop_writes, #[trigger] f.write@[i])
                } by {
                    let m = low0.mems@[j];
                    let f = self.mems@[j];
                    let live = live_slots(*env, m.name@, low0.slots()[j] as nat);
                    assert(crate::ir::mem_ok(f, vals_outer.len()));
                    assert forall|i: int| 0 <= i < live.len() implies settled_port(self.vals(),
                        slot_port(*env, m.name@, live[i])->0, low0.stop_writes, #[trigger] f.write@[i]) by {
                        lemma_live_slots_below(*env, m.name@, low0.slots()[j] as nat, i);
                        lemma_slot_port_ok(*env, m.name@, live[i], low0.vals().len());
                        assert(write_port_ok(f.write@[i], vals_outer.len()));
                        lemma_settled_grows(vals_outer, self.vals(), slot_port(*env, m.name@, live[i])->0, low0.stop_writes, f.write@[i]);
                    }
                }
            }
            let ghost before_set = *self;
            self.mems[ix].write = ports;
            proof {
                let n_vals = self.vals().len();
                assert forall|j: int| 0 <= j < self.mems@.len() implies crate::ir::mem_ok(#[trigger] self.mems@[j], n_vals)
                    && width(self.mems@[j].elem) <= u32::MAX by {
                    if j != ix {
                        assert(self.mems@[j] == before_set.mems@[j]);
                        assert(crate::ir::mem_ok(before_set.mems@[j], n_vals));
                    } else {
                        assert(crate::ir::mem_ok(before_set.mems@[j], n_vals));
                    }
                }
                assert forall|j: int| 0 <= j < self.pipes@.len() implies pipe_ok(#[trigger] self.pipes@[j], n_vals, self.ports_view().len()) by {
                    assert(pipe_ok(before_set.pipes@[j], n_vals, before_set.ports_view().len()));
                }
                assert forall|j: int| 0 <= j < self.path_view().len() implies term_ok(#[trigger] self.path_view()[j], n_vals) by {
                    assert(term_ok(before_set.path_view()[j], n_vals));
                }
                assert forall|j: int| 0 <= j < self.asserts@.len() implies vid_ok((#[trigger] self.asserts@[j]).cond, n_vals) by {
                    assert(vid_ok(before_set.asserts@[j].cond, n_vals));
                }
                assert forall|i: int| 0 <= i < n_vals implies #[trigger] self.vals()[i].id.0 == i && crate::ir::op_ok(
                    self.vals()[i].op, i as nat, self.ports_view().len(), self.mems@.len()) by {
                    assert(crate::ir::op_ok(before_set.vals()[i].op, i as nat, before_set.ports_view().len(), before_set.mems@.len()));
                }
            }
            ix = ix + 1;
        }
    }

    /// `a & b` on one bit.
    fn and_of(&mut self, a: ValueId, b: ValueId) -> (r: ValueId)
        requires
            old(self).inv(),
            old(self).room(1),
            vid_ok(a, old(self).vals().len()),
            vid_ok(b, old(self).vals().len()),
        ensures
            final(self).inv(),
            final(self).adds(old(self), 1),
            anded(final(self).vals(), a, b, r),
            vid_ok(r, final(self).vals().len()),
            final(self).vals() == emitted(old(self).vals(), bool_ty(), Op::Bin { op: BinOp::And, lhs: a, rhs: b }),
            r == emit_result(old(self).vals(), bool_ty(), Op::Bin { op: BinOp::And, lhs: a, rhs: b }),
    {
        let ghost vb = self.vals();
        let op = Op::Bin { op: BinOp::And, lhs: a, rhs: b };
        let r = self.emit(bool_type(), Op::Bin { op: BinOp::And, lhs: a, rhs: b });
        proof {
            lemma_emitted(vb, bool_ty(), op);
            assert(self.vals()[a.0 as int].op == vb[a.0 as int].op);
            assert(self.vals()[b.0 as int].op == vb[b.0 as int].op);
        }
        r
    }
}

/// The slot counts from memory `j` on, added up.
pub open spec fn sum_from(s: Seq<usize>, j: int) -> nat
    decreases s.len() - j,
{
    if j < 0 || j >= s.len() {
        0
    } else {
        s[j] as nat + sum_from(s, j + 1)
    }
}

proof fn lemma_sum_from_split(s: Seq<usize>, j: int)
    requires
        0 <= j,
    ensures
        j < s.len() ==> sum_from(s, j) == s[j] as nat + sum_from(s, j + 1),
{
}

proof fn lemma_live_slots_below(env: Env, name: Seq<char>, n: nat, i: int)
    requires
        0 <= i < live_slots(env, name, n).len(),
    ensures
        slot_port(env, name, live_slots(env, name, n)[i]) is Some,
        live_slots(env, name, n)[i] < n,
    decreases n,
{
    if n > 0 {
        let prev = live_slots(env, name, (n - 1) as nat);
        if i < prev.len() {
            lemma_live_slots_below(env, name, (n - 1) as nat, i);
        }
    }
}

/// Slot `s` of memory `name` holds a write that may fire: a whole port whose
/// enable is not the constant 0.
pub open spec fn live_write(vals: Seq<ValueDef>, env: Env, name: Seq<char>, s: nat) -> bool {
    slot_port(env, name, s) is Some && vals[slot_port(env, name, s)->0.we.0 as int].op != Op::Const(0)
}

/// A valuation of the values that existed before a step: each constant takes
/// its own value and each one-bit value is 0 or 1. Anything else is free.
pub open spec fn consistent(vals: Seq<ValueDef>, leaf: spec_fn(ValueId) -> int) -> bool {
    forall|v: ValueId| #![trigger vals[v.0 as int]] (v.0 as int) < vals.len() ==> {
        &&& (vals[v.0 as int].op matches Op::Const(k) ==> leaf(v) == k)
        &&& (vals[v.0 as int].ty == bool_ty() ==> 0 <= leaf(v) <= 1)
    }
}

/// What value `v` computes when every value below `from` takes its value
/// from `leaf`: constants, equality, and, or, logical not and muxes over
/// earlier values are evaluated, a true condition being anything but 0.
pub open spec fn computed(vals: Seq<ValueDef>, from: nat, leaf: spec_fn(ValueId) -> int, v: ValueId) -> int
    decreases v.0,
{
    if (v.0 as int) < from || (v.0 as int) >= vals.len() {
        leaf(v)
    } else {
        match vals[v.0 as int].op {
            Op::Const(k) => k as int,
            Op::Un { op: UnOp::LogNot, arg } => if arg.0 < v.0 {
                if computed(vals, from, leaf, arg) == 0 { 1 } else { 0 }
            } else {
                leaf(v)
            },
            Op::Cmp { op: CmpOp::Eq, lhs, rhs } => if lhs.0 < v.0 && rhs.0 < v.0 {
                if computed(vals, from, leaf, lhs) == computed(vals, from, leaf, rhs) { 1 } else { 0 }
            } else {
                leaf(v)
            },
            Op::Bin { op: BinOp::And, lhs, rhs } => if lhs.0 < v.0 && rhs.0 < v.0 {
                if computed(vals, from, leaf, lhs) != 0 && computed(vals, from, leaf, rhs) != 0 { 1 } else { 0 }
            } else {
                leaf(v)
            },
            Op::Bin { op: BinOp::Or, lhs, rhs } => if lhs.0 < v.0 && rhs.0 < v.0 {
                if computed(vals, from, leaf, lhs) != 0 || computed(vals, from, leaf, rhs) != 0 { 1 } else { 0 }
            } else {
                leaf(v)
            },
            Op::Mux { cond, then_val, else_val } => if cond.0 < v.0 && then_val.0 < v.0 && else_val.0 < v.0 {
                if computed(vals, from, leaf, cond) != 0 {
                    computed(vals, from, leaf, then_val)
                } else {
                    computed(vals, from, leaf, else_val)
                }
            } else {
                leaf(v)
            },
            _ => leaf(v),
        }
    }
}

/// Adding values after `v` does not change what it computes.
pub proof fn lemma_computed_grows(a: Seq<ValueDef>, b: Seq<ValueDef>, from: nat, leaf: spec_fn(ValueId) -> int, v: ValueId)
    requires
        grows(a, b),
        (v.0 as int) < a.len(),
    ensures
        computed(b, from, leaf, v) == computed(a, from, leaf, v),
    decreases v.0,
{
    if (v.0 as int) >= from {
        assert(b[v.0 as int].op == a[v.0 as int].op);
        match a[v.0 as int].op {
            Op::Cmp { lhs, rhs, .. } => {
                if lhs.0 < v.0 && rhs.0 < v.0 {
                    lemma_computed_grows(a, b, from, leaf, lhs);
                    lemma_computed_grows(a, b, from, leaf, rhs);
                }
            },
            Op::Bin { lhs, rhs, .. } => {
                if lhs.0 < v.0 && rhs.0 < v.0 {
                    lemma_computed_grows(a, b, from, leaf, lhs);
                    lemma_computed_grows(a, b, from, leaf, rhs);
                }
            },
            Op::Mux { cond, then_val, else_val } => {
                if cond.0 < v.0 && then_val.0 < v.0 && else_val.0 < v.0 {
                    lemma_computed_grows(a, b, from, leaf, cond);
                    lemma_computed_grows(a, b, from, leaf, then_val);
                    lemma_computed_grows(a, b, from, leaf, else_val);
                }
            },
            Op::Un { arg, .. } => {
                if arg.0 < v.0 {
                    lemma_computed_grows(a, b, from, leaf, arg);
                }
            },
            _ => {},
        }
    }
}

/// `leaf` fits the values below `from`: each constant takes its own value
/// and each one-bit value is 0 or 1.
pub open spec fn leaves_fit(vals: Seq<ValueDef>, from: nat, leaf: spec_fn(ValueId) -> int) -> bool {
    forall|v: ValueId| #![trigger vals[v.0 as int]] (v.0 as int) < from && (v.0 as int) < vals.len() ==> {
        &&& (vals[v.0 as int].op matches Op::Const(k) ==> leaf(v) == k)
        &&& (vals[v.0 as int].ty == bool_ty() ==> 0 <= leaf(v) <= 1)
    }
}

pub proof fn lemma_leaves_fit_grows(a: Seq<ValueDef>, b: Seq<ValueDef>, from: nat, leaf: spec_fn(ValueId) -> int)
    requires
        grows(a, b),
        from <= a.len(),
        leaves_fit(a, from, leaf),
    ensures
        leaves_fit(b, from, leaf),
{
    assert forall|v: ValueId| #![trigger b[v.0 as int]] (v.0 as int) < from && (v.0 as int) < b.len() implies {
        &&& (b[v.0 as int].op matches Op::Const(k) ==> leaf(v) == k)
        &&& (b[v.0 as int].ty == bool_ty() ==> 0 <= leaf(v) <= 1)
    } by {
        assert(b[v.0 as int].op == a[v.0 as int].op && b[v.0 as int].ty == a[v.0 as int].ty);
    }
}

/// Under a fitting `leaf`, a constant computes its own value.
pub proof fn lemma_const_computed(vals: Seq<ValueDef>, from: nat, leaf: spec_fn(ValueId) -> int, v: ValueId, k: u128)
    requires
        leaves_fit(vals, from, leaf),
        (v.0 as int) < vals.len(),
        vals[v.0 as int].op == Op::Const(k),
    ensures
        computed(vals, from, leaf, v) == k,
{
}

/// An OR folded over `a` computes true exactly when one of `a` does.
pub proof fn lemma_or_chain(vals: Seq<ValueDef>, from: nat, leaf: spec_fn(ValueId) -> int, a: Seq<ValueId>)
    requires
        leaves_fit(vals, from, leaf),
        from <= vals.len(),
        a.len() >= 1,
        vals.len() + a.len() < u32::MAX,
        forall|i: int| 0 <= i < a.len() ==> vid_ok(#[trigger] a[i], vals.len()),
    ensures
        grows(vals, crate::ir_fsm::chained(vals, a, BinOp::Or).0),
        crate::ir_fsm::chained(vals, a, BinOp::Or).0.len() < vals.len() + a.len(),
        vid_ok(crate::ir_fsm::chained(vals, a, BinOp::Or).1, crate::ir_fsm::chained(vals, a, BinOp::Or).0.len()),
        computed(crate::ir_fsm::chained(vals, a, BinOp::Or).0, from, leaf, crate::ir_fsm::chained(vals, a, BinOp::Or).1) != 0
            <==> exists|i: int| 0 <= i < a.len() && #[trigger] computed(vals, from, leaf, a[i]) != 0,
    decreases a.len(),
{
    if a.len() == 1 {
        assert(a[0] == a[0]);
    } else {
        let p = a.drop_last();
        let last = a.last();
        assert forall|i: int| 0 <= i < p.len() implies vid_ok(#[trigger] p[i], vals.len()) by {
            assert(p[i] == a[i]);
        }
        lemma_or_chain(vals, from, leaf, p);
        let (v1, acc) = crate::ir_fsm::chained(vals, p, BinOp::Or);
        let o = Op::Bin { op: BinOp::Or, lhs: acc, rhs: last };
        lemma_emitted(v1, bool_ty(), o);
        let v2 = emitted(v1, bool_ty(), o);
        let r = emit_result(v1, bool_ty(), o);
        assert(crate::ir_fsm::chained(vals, a, BinOp::Or) == (v2, r));
        lemma_leaves_fit_grows(vals, v1, from, leaf);
        lemma_computed_grows(vals, v1, from, leaf, last);
        lemma_computed_grows(v1, v2, from, leaf, last);
        lemma_computed_grows(v1, v2, from, leaf, acc);
        if crate::lowerer::is_const_at(v1, last, 0) {
            lemma_const_computed(v1, from, leaf, last, 0);
        } else if crate::lowerer::is_const_at(v1, acc, 0) {
            lemma_const_computed(v1, from, leaf, acc, 0);
        } else {
            assert(r.0 == v1.len());
            assert(v2[r.0 as int].op == o);
        }
        if exists|i: int| 0 <= i < a.len() && #[trigger] computed(vals, from, leaf, a[i]) != 0 {
            let i = choose|i: int| 0 <= i < a.len() && #[trigger] computed(vals, from, leaf, a[i]) != 0;
            if i < p.len() {
                assert(p[i] == a[i]);
                assert(computed(vals, from, leaf, p[i]) != 0);
            }
        }
        if exists|i: int| 0 <= i < p.len() && #[trigger] computed(vals, from, leaf, p[i]) != 0 {
            let i = choose|i: int| 0 <= i < p.len() && #[trigger] computed(vals, from, leaf, p[i]) != 0;
            assert(p[i] == a[i]);
            assert(computed(vals, from, leaf, a[i]) != 0);
        }
        assert(computed(vals, from, leaf, a[a.len() - 1]) == computed(vals, from, leaf, last));
    }
}

/// An AND folded over `a` computes true exactly when all of `a` do.
pub proof fn lemma_and_chain(vals: Seq<ValueDef>, from: nat, leaf: spec_fn(ValueId) -> int, a: Seq<ValueId>)
    requires
        leaves_fit(vals, from, leaf),
        from <= vals.len(),
        a.len() >= 1,
        vals.len() + a.len() < u32::MAX,
        forall|i: int| 0 <= i < a.len() ==> vid_ok(#[trigger] a[i], vals.len()),
    ensures
        grows(vals, crate::ir_fsm::chained(vals, a, BinOp::And).0),
        crate::ir_fsm::chained(vals, a, BinOp::And).0.len() < vals.len() + a.len(),
        vid_ok(crate::ir_fsm::chained(vals, a, BinOp::And).1, crate::ir_fsm::chained(vals, a, BinOp::And).0.len()),
        computed(crate::ir_fsm::chained(vals, a, BinOp::And).0, from, leaf, crate::ir_fsm::chained(vals, a, BinOp::And).1) != 0
            <==> forall|i: int| 0 <= i < a.len() ==> #[trigger] computed(vals, from, leaf, a[i]) != 0,
    decreases a.len(),
{
    if a.len() == 1 {
        assert(a[0] == a[0]);
    } else {
        let p = a.drop_last();
        let last = a.last();
        assert forall|i: int| 0 <= i < p.len() implies vid_ok(#[trigger] p[i], vals.len()) by {
            assert(p[i] == a[i]);
        }
        lemma_and_chain(vals, from, leaf, p);
        let (v1, acc) = crate::ir_fsm::chained(vals, p, BinOp::And);
        let o = Op::Bin { op: BinOp::And, lhs: acc, rhs: last };
        lemma_emitted(v1, bool_ty(), o);
        let v2 = emitted(v1, bool_ty(), o);
        let r = emit_result(v1, bool_ty(), o);
        assert(crate::ir_fsm::chained(vals, a, BinOp::And) == (v2, r));
        lemma_leaves_fit_grows(vals, v1, from, leaf);
        lemma_computed_grows(vals, v1, from, leaf, last);
        lemma_computed_grows(v1, v2, from, leaf, last);
        lemma_computed_grows(v1, v2, from, leaf, acc);
        if crate::lowerer::is_const_at(v1, last, 1) {
            lemma_const_computed(v1, from, leaf, last, 1);
        } else if crate::lowerer::is_const_at(v1, acc, 1) {
            lemma_const_computed(v1, from, leaf, acc, 1);
        } else {
            assert(r.0 == v1.len());
            assert(v2[r.0 as int].op == o);
        }
        if forall|i: int| 0 <= i < a.len() ==> #[trigger] computed(vals, from, leaf, a[i]) != 0 {
            assert forall|i: int| 0 <= i < p.len() implies #[trigger] computed(vals, from, leaf, p[i]) != 0 by {
                assert(p[i] == a[i]);
                assert(computed(vals, from, leaf, a[i]) != 0);
            }
            assert(computed(vals, from, leaf, a[a.len() - 1]) != 0);
        }
        if forall|i: int| 0 <= i < p.len() ==> #[trigger] computed(vals, from, leaf, p[i]) != 0 {
            if computed(vals, from, leaf, last) != 0 {
                assert forall|i: int| 0 <= i < a.len() implies #[trigger] computed(vals, from, leaf, a[i]) != 0 by {
                    if i < p.len() {
                        assert(p[i] == a[i]);
                        assert(computed(vals, from, leaf, p[i]) != 0);
                    }
                }
            }
        }
        assert(computed(vals, from, leaf, a[a.len() - 1]) == computed(vals, from, leaf, last));
    }
}

/// An emitted AND computes true exactly when both its sides do, whether or
/// not the emit folded it away.
pub proof fn lemma_and_emitted(vals: Seq<ValueDef>, from: nat, leaf: spec_fn(ValueId) -> int, a: ValueId, b: ValueId)
    requires
        leaves_fit(vals, from, leaf),
        from <= vals.len(),
        vals.len() < u32::MAX,
        vid_ok(a, vals.len()),
        vid_ok(b, vals.len()),
    ensures
        computed(emitted(vals, bool_ty(), Op::Bin { op: BinOp::And, lhs: a, rhs: b }), from, leaf,
            emit_result(vals, bool_ty(), Op::Bin { op: BinOp::And, lhs: a, rhs: b })) != 0
            <==> computed(vals, from, leaf, a) != 0 && computed(vals, from, leaf, b) != 0,
{
    let o = Op::Bin { op: BinOp::And, lhs: a, rhs: b };
    lemma_emitted(vals, bool_ty(), o);
    let v2 = emitted(vals, bool_ty(), o);
    let r = emit_result(vals, bool_ty(), o);
    lemma_computed_grows(vals, v2, from, leaf, a);
    lemma_computed_grows(vals, v2, from, leaf, b);
    if crate::lowerer::is_const_at(vals, b, 1) {
        lemma_const_computed(vals, from, leaf, b, 1);
    } else if crate::lowerer::is_const_at(vals, a, 1) {
        lemma_const_computed(vals, from, leaf, a, 1);
    } else {
        assert(r.0 == vals.len());
        assert(v2[r.0 as int].op == o);
    }
}

/// A fitting reading of a grown list fits the list it grew from.
pub proof fn lemma_leaves_fit_back(a: Seq<ValueDef>, b: Seq<ValueDef>, from: nat, leaf: spec_fn(ValueId) -> int)
    requires
        grows(a, b),
        from <= a.len(),
        leaves_fit(b, from, leaf),
    ensures
        leaves_fit(a, from, leaf),
{
    assert forall|v: ValueId| #![trigger a[v.0 as int]] (v.0 as int) < from && (v.0 as int) < a.len() implies {
        &&& (a[v.0 as int].op matches Op::Const(k) ==> leaf(v) == k)
        &&& (a[v.0 as int].ty == bool_ty() ==> 0 <= leaf(v) <= 1)
    } by {
        assert(b[v.0 as int].op == a[v.0 as int].op && b[v.0 as int].ty == a[v.0 as int].ty);
    }
}

/// Slot `s` holds a write that fires, under `leaf`, at the address `addr`
/// reads.
pub open spec fn hits(vals: Seq<ValueDef>, env: Env, name: Seq<char>, leaf: spec_fn(ValueId) -> int, addr: ValueId, s: nat) -> bool {
    &&& live_write(vals, env, name, s)
    &&& leaf(slot_port(env, name, s)->0.we) != 0
    &&& leaf(slot_port(env, name, s)->0.addr) == leaf(addr)
}

/// The last slot below `n` whose write hits.
pub open spec fn latest_hit(vals: Seq<ValueDef>, env: Env, name: Seq<char>, leaf: spec_fn(ValueId) -> int, addr: ValueId, n: nat) -> Option<nat>
    decreases n,
{
    if n == 0 {
        None
    } else if hits(vals, env, name, leaf, addr, (n - 1) as nat) {
        Some((n - 1) as nat)
    } else {
        latest_hit(vals, env, name, leaf, addr, (n - 1) as nat)
    }
}

/// What a read of `name` at `addr` sees of the writes in the first `n`
/// slots, under `leaf`: `hit` computes whether any of them hits, and where
/// one does, `data` computes what the latest of them writes.
pub open spec fn reads_through(
    now: Seq<ValueDef>,
    before: Seq<ValueDef>,
    env: Env,
    name: Seq<char>,
    leaf: spec_fn(ValueId) -> int,
    addr: ValueId,
    n: nat,
    r: Option<(ValueId, ValueId)>,
) -> bool {
    match r {
        None => latest_hit(before, env, name, leaf, addr, n) is None,
        Some((hit, data)) => {
            &&& (computed(now, before.len(), leaf, hit) != 0 <==> latest_hit(before, env, name, leaf, addr, n) is Some)
            &&& (latest_hit(before, env, name, leaf, addr, n) matches Some(s) ==> computed(now, before.len(), leaf, data)
                == leaf(slot_port(env, name, s)->0.data))
        },
    }
}

/// No value from `from` on is a constant.
pub open spec fn no_consts(vals: Seq<ValueDef>, from: nat) -> bool {
    forall|i: int| #![trigger vals[i]] from <= i < vals.len() ==> !(vals[i].op is Const)
}

/// How one live port's hit is built on `vb`: the enable itself when the
/// read uses the very address value the write did, else the enable ANDed
/// with an address comparison.
pub open spec fn hit_built(vb: Seq<ValueDef>, v1: Seq<ValueDef>, addr: ValueId, p: WritePort, hit: ValueId) -> bool {
    if addr == p.addr {
        v1 == vb && hit == p.we
    } else {
        let m = vb.len();
        let vm = vb.push(ValueDef { id: ValueId(m as u32), ty: bool_ty(), op: Op::Cmp { op: CmpOp::Eq, lhs: addr, rhs: p.addr }, name: None });
        let o = Op::Bin { op: BinOp::And, lhs: p.we, rhs: ValueId(m as u32) };
        v1 == emitted(vm, bool_ty(), o) && hit == emit_result(vm, bool_ty(), o)
    }
}

proof fn lemma_hit(l: Seq<ValueDef>, vb: Seq<ValueDef>, v1: Seq<ValueDef>, leaf: spec_fn(ValueId) -> int, addr: ValueId, p: WritePort, hit: ValueId)
    requires
        grows(l, vb),
        no_consts(vb, l.len()),
        vb.len() + 2 < u32::MAX,
        write_port_ok(p, l.len()),
        vid_ok(addr, l.len()),
        l[p.we.0 as int].op != Op::Const(0),
        hit_built(vb, v1, addr, p, hit),
    ensures
        grows(vb, v1),
        no_consts(v1, l.len()),
        v1.len() <= vb.len() + 2,
        vid_ok(hit, v1.len()),
        v1[hit.0 as int].op != Op::Const(0),
        consistent(l, leaf) ==> (computed(v1, l.len(), leaf, hit) != 0 <==> (leaf(p.we) != 0 && leaf(p.addr) == leaf(addr))),
        (hit.0 as int) < l.len() || 0 <= computed(v1, l.len(), leaf, hit) <= 1,
{
    let n0 = l.len();
    assert(vb[p.we.0 as int].op == l[p.we.0 as int].op);
    if addr != p.addr {
        let m = vb.len();
        let same = ValueId(m as u32);
        let vm = vb.push(ValueDef { id: same, ty: bool_ty(), op: Op::Cmp { op: CmpOp::Eq, lhs: addr, rhs: p.addr }, name: None });
        let o = Op::Bin { op: BinOp::And, lhs: p.we, rhs: same };
        lemma_emitted(vm, bool_ty(), o);
        assert(vm[p.we.0 as int] == vb[p.we.0 as int]);
        assert(same.0 == m);
        assert(vm[m as int].op == (Op::Cmp { op: CmpOp::Eq, lhs: addr, rhs: p.addr }));
        assert(computed(vm, n0, leaf, addr) == leaf(addr));
        assert(computed(vm, n0, leaf, p.addr) == leaf(p.addr));
        assert(computed(vm, n0, leaf, same) == (if leaf(addr) == leaf(p.addr) { 1int } else { 0int }));
        lemma_computed_grows(vm, v1, n0, leaf, same);
        assert(v1[same.0 as int].op == vm[same.0 as int].op);
        if emit_folds(vm, bool_ty(), o) is Some {
            // `1 & same`: the enable is the constant 1.
            assert(!crate::lowerer::is_const_at(vm, same, 1));
            assert(hit == same);
            if consistent(l, leaf) {
                assert(l[p.we.0 as int].op == Op::Const(1));
                assert(leaf(p.we) == 1);
            }
        } else {
            assert(hit.0 == m + 1);
            assert(v1[hit.0 as int].op == o);
            assert(p.we.0 < hit.0 && same.0 < hit.0);
            assert(computed(v1, n0, leaf, p.we) == leaf(p.we));
            assert(computed(v1, n0, leaf, hit) == (if leaf(p.we) != 0 && computed(v1, n0, leaf, same) != 0 { 1int } else { 0int }));
        }
    } else {
        assert(computed(v1, n0, leaf, hit) == leaf(p.we));
    }
}

/// How the answer so far and one more live port's hit combine: the first
/// hit and its data as they are, or the new data muxed over the old and the
/// hits ORed.
pub open spec fn layered(v1: Seq<ValueDef>, v2: Seq<ValueDef>, prev: Option<(ValueId, ValueId)>, hit: ValueId, p: WritePort, next: (ValueId, ValueId)) -> bool {
    match prev {
        None => v2 == v1 && next == (hit, p.data),
        Some((ph, pd)) => {
            let mx = Op::Mux { cond: hit, then_val: p.data, else_val: pd };
            let ty = v1[pd.0 as int].ty;
            let va = emitted(v1, ty, mx);
            let o = Op::Bin { op: BinOp::Or, lhs: ph, rhs: hit };
            &&& v2 == emitted(va, bool_ty(), o)
            &&& next == (emit_result(va, bool_ty(), o), emit_result(v1, ty, mx))
        },
    }
}

proof fn lemma_layer(
    l: Seq<ValueDef>,
    v1: Seq<ValueDef>,
    v2: Seq<ValueDef>,
    leaf: spec_fn(ValueId) -> int,
    prev: Option<(ValueId, ValueId)>,
    hit: ValueId,
    p: WritePort,
    next: (ValueId, ValueId),
)
    requires
        grows(l, v1),
        no_consts(v1, l.len()),
        v1.len() + 2 < u32::MAX,
        write_port_ok(p, l.len()),
        vid_ok(hit, v1.len()),
        v1[hit.0 as int].op != Op::Const(0),
        (hit.0 as int) < l.len() || 0 <= computed(v1, l.len(), leaf, hit) <= 1,
        prev matches Some((ph, pd)) ==> vid_ok(ph, v1.len()) && vid_ok(pd, v1.len()) && v1[ph.0 as int].op != Op::Const(0),
        layered(v1, v2, prev, hit, p, next),
    ensures
        grows(v1, v2),
        no_consts(v2, l.len()),
        v2.len() <= v1.len() + 2,
        vid_ok(next.0, v2.len()),
        vid_ok(next.1, v2.len()),
        v2[(next.0).0 as int].op != Op::Const(0),
        ((next.0).0 as int) < l.len() || 0 <= computed(v2, l.len(), leaf, next.0) <= 1,
        computed(v2, l.len(), leaf, next.0) != 0 <==> (computed(v1, l.len(), leaf, hit) != 0 || (prev matches Some((ph, _))
            && computed(v1, l.len(), leaf, ph) != 0)),
        consistent(l, leaf) ==> computed(v2, l.len(), leaf, next.1) == (if computed(v1, l.len(), leaf, hit) != 0 || prev is None {
            leaf(p.data)
        } else {
            computed(v1, l.len(), leaf, (prev->0).1)
        }),
{
    let n0 = l.len();
    assert(v1[p.data.0 as int].op == l[p.data.0 as int].op);
    match prev {
        None => {},
        Some((ph, pd)) => {
            let mx = Op::Mux { cond: hit, then_val: p.data, else_val: pd };
            let ty = v1[pd.0 as int].ty;
            let va = emitted(v1, ty, mx);
            let d = emit_result(v1, ty, mx);
            let o = Op::Bin { op: BinOp::Or, lhs: ph, rhs: hit };
            lemma_emitted(v1, ty, mx);
            lemma_emitted(va, bool_ty(), o);
            assert(va[hit.0 as int].op == v1[hit.0 as int].op);
            assert(va[ph.0 as int].op == v1[ph.0 as int].op);
            assert(emit_folds(va, bool_ty(), o) is None);
            lemma_computed_grows(v1, va, n0, leaf, hit);
            lemma_computed_grows(v1, va, n0, leaf, ph);
            lemma_computed_grows(v1, va, n0, leaf, pd);
            lemma_computed_grows(v1, va, n0, leaf, p.data);
            if emit_folds(v1, ty, mx) is Some {
                // A one-bit `hit ? 1 : 0` is `hit`; the old data is then the
                // constant 0, an earlier value.
                assert(d == hit);
                assert((pd.0 as int) < n0);
                assert(v1[pd.0 as int].op == l[pd.0 as int].op);
                assert(l[pd.0 as int].op == Op::Const(0));
                if consistent(l, leaf) {
                    assert(leaf(pd) == 0);
                    assert(leaf(p.data) == 1);
                    if (hit.0 as int) < n0 {
                        assert(l[hit.0 as int].ty == v1[hit.0 as int].ty);
                    }
                }
                lemma_computed_grows(va, v2, n0, leaf, hit);
            } else {
                assert(d.0 == v1.len());
                assert(va[d.0 as int].op == mx);
                lemma_computed_grows(va, v2, n0, leaf, d);
            }
            let a = next.0;
            assert(a.0 == va.len());
            assert(v2[a.0 as int].op == o);
            lemma_computed_grows(va, v2, n0, leaf, ph);
            lemma_computed_grows(va, v2, n0, leaf, hit);
        },
    }
}

impl Lowerer {
    /// Whether a read of `mems[mem_ix]` at `addr` collides with the writes the
    /// source has offered so far, and what the latest of them would put
    /// there.
    ///
    /// `None` when nothing may have written the memory yet on this path --
    /// the common case, and worth answering separately rather than as a mux
    /// on a constant-false: a memory that is only read should emit exactly
    /// what it emitted before. Earlier writes are layered under later ones,
    /// because two writes to one address in a cycle are resolved by source
    /// order and the port logic resolves them the same way.
    pub fn pending_write(&mut self, mem_ix: usize, addr: ValueId, env: &Env) -> (r: Option<(ValueId, ValueId)>)
        requires
            old(self).inv(),
            mem_ix < old(self).mems@.len(),
            vid_ok(addr, old(self).vals().len()),
            env_ok(*env, old(self).vals().len()),
            old(self).vals().len() + 4 * old(self).slots()[mem_ix as int] < u32::MAX,
        ensures
            final(self).inv(),
            final(self).adds(old(self), 4 * old(self).slots()[mem_ix as int] as nat),
            ({
                let name = old(self).mems@[mem_ix as int].name@;
                let n = old(self).slots()[mem_ix as int] as nat;
                &&& match r {
                    None => forall|s: nat| s < n ==> !#[trigger] live_write(old(self).vals(), *env, name, s),
                    Some((hit, data)) => {
                        &&& vid_ok(hit, final(self).vals().len())
                        &&& vid_ok(data, final(self).vals().len())
                        &&& exists|s: nat| s < n && #[trigger] live_write(old(self).vals(), *env, name, s)
                    },
                }
                // Under every valuation of what was there before, `hit` is
                // whether some write fires at the address read, and `data`
                // what the latest such write puts there.
                &&& forall|leaf: spec_fn(ValueId) -> int| #[trigger] consistent(old(self).vals(), leaf)
                    ==> reads_through(final(self).vals(), old(self).vals(), *env, name, leaf, addr, n, r)
                // One write, at the very address value read: its own enable
                // and data, and nothing emitted.
                &&& forall|s0: nat| #![trigger live_write(old(self).vals(), *env, name, s0)]
                    s0 < n && live_write(old(self).vals(), *env, name, s0) && slot_port(*env, name, s0)->0.addr == addr
                    && (forall|s: nat| s < n && #[trigger] live_write(old(self).vals(), *env, name, s) ==> s == s0)
                    ==> r == Some((slot_port(*env, name, s0)->0.we, slot_port(*env, name, s0)->0.data))
                        && final(self).vals() == old(self).vals()
            }),
    {
        let ghost name = self.mems@[mem_ix as int].name@;
        let ghost l = self.vals();
        let ghost n0 = l.len();
        let n = self.mem_slots[mem_ix];
        let mut answer: Option<(ValueId, ValueId)> = None;
        let mut slot: usize = 0;
        proof { lemma_adds_none(self); }
        while slot < n
            invariant
                self.inv(),
                mem_ix < self.mems@.len(),
                name == self.mems@[mem_ix as int].name@,
                n == old(self).slots()[mem_ix as int],
                l == old(self).vals(),
                n0 == l.len(),
                slot <= n,
                self.adds(old(self), 4 * slot as nat),
                old(self).vals().len() + 4 * n < u32::MAX,
                vid_ok(addr, old(self).vals().len()),
                env_ok(*env, old(self).vals().len()),
                no_consts(self.vals(), n0),
                match answer {
                    None => forall|s: nat| s < slot ==> !#[trigger] live_write(old(self).vals(), *env, name, s),
                    Some((hit, data)) => {
                        &&& vid_ok(hit, self.vals().len())
                        &&& vid_ok(data, self.vals().len())
                        &&& self.vals()[hit.0 as int].op != Op::Const(0)
                        &&& exists|s: nat| s < slot && #[trigger] live_write(old(self).vals(), *env, name, s)
                        &&& forall|leaf: spec_fn(ValueId) -> int| (hit.0 as int) < n0
                            || 0 <= #[trigger] computed(self.vals(), n0, leaf, hit) <= 1
                    },
                },
                forall|leaf: spec_fn(ValueId) -> int| #[trigger] consistent(l, leaf)
                    ==> reads_through(self.vals(), l, *env, name, leaf, addr, slot as nat, answer),
                answer is None ==> self.vals() == l,
                forall|s0: nat| #![trigger live_write(l, *env, name, s0)]
                    s0 < slot && live_write(l, *env, name, s0) && slot_port(*env, name, s0)->0.addr == addr
                    && (forall|s: nat| s < slot && #[trigger] live_write(l, *env, name, s) ==> s == s0)
                    ==> answer == Some((slot_port(*env, name, s0)->0.we, slot_port(*env, name, s0)->0.data))
                        && self.vals() == l,
            decreases n - slot,
        {
            let ghost before = *self;
            let ghost vb = self.vals();
            let p = self.write_slot(mem_ix, slot, env);
            proof {
                lemma_slot_port_ok(*env, name, slot as nat, old(self).vals().len());
            }
            match p {
                None => {
                    proof {
                        lemma_adds_none(self);
                        assert forall|leaf: spec_fn(ValueId) -> int| #[trigger] consistent(l, leaf)
                            implies reads_through(self.vals(), l, *env, name, leaf, addr, (slot + 1) as nat, answer) by {
                            assert(!hits(l, *env, name, leaf, addr, slot as nat));
                        }
                    }
                },
                Some(p) => {
                    let dead = match self.values[p.we.0 as usize].op {
                        Op::Const(k) => k == 0,
                        _ => false,
                    };
                    proof {
                        assert(self.vals()[p.we.0 as int].op == old(self).vals()[p.we.0 as int].op);
                    }
                    if dead {
                        proof {
                            lemma_adds_none(self);
                            assert forall|leaf: spec_fn(ValueId) -> int| #[trigger] consistent(l, leaf)
                                implies reads_through(self.vals(), l, *env, name, leaf, addr, (slot + 1) as nat, answer) by {
                                assert(!hits(l, *env, name, leaf, addr, slot as nat));
                            }
                        }
                    } else {
                        let ghost live_at = slot as nat;
                        proof {
                            assert(live_write(old(self).vals(), *env, name, live_at));
                        }
                        // `m[i] = v` then `m[i]` lowers `i` to the same value
                        // both times; `(i == i)` would be a comparator that is
                        // true by construction.
                        let hit = if addr == p.addr {
                            proof { lemma_adds_none(self); }
                            p.we
                        } else {
                            let same = self.emit_eq(addr, p.addr);
                            let ghost mid = *self;
                            let h = self.and_of(p.we, same);
                            proof { lemma_adds_trans(&before, &mid, self, 1, 1); }
                            h
                        };
                        let ghost v1 = self.vals();
                        proof {
                            assert(hit_built(vb, v1, addr, p, hit));
                            lemma_hit(l, vb, v1, |v: ValueId| 0int, addr, p, hit);
                        }
                        let ghost mid2 = *self;
                        let ghost prev = answer;
                        let next = match answer {
                            None => {
                                proof { lemma_adds_none(self); }
                                (hit, p.data)
                            },
                            Some((prev_hit, prev_data)) => {
                                let ty = self.ty_of(prev_data);
                                let ghost vb2 = self.vals();
                                let data = self.emit(ty, Op::Mux { cond: hit, then_val: p.data, else_val: prev_data });
                                proof { lemma_emitted(vb2, ty, Op::Mux { cond: hit, then_val: p.data, else_val: prev_data }); }
                                let ghost mid3 = *self;
                                let ghost vc = self.vals();
                                let any = self.emit(bool_type(), Op::Bin { op: BinOp::Or, lhs: prev_hit, rhs: hit });
                                proof {
                                    lemma_emitted(vc, bool_ty(), Op::Bin { op: BinOp::Or, lhs: prev_hit, rhs: hit });
                                    lemma_adds_trans(&mid2, &mid3, self, 1, 1);
                                }
                                (any, data)
                            },
                        };
                        answer = Some(next);
                        proof {
                            lemma_adds_trans(&before, &mid2, self, 2, 2);
                            let v2 = self.vals();
                            assert(layered(v1, v2, prev, hit, p, next));
                            match prev {
                                Some((ph, pd)) => {
                                    assert(v1[ph.0 as int].op == vb[ph.0 as int].op);
                                },
                                None => {},
                            }
                            lemma_layer(l, v1, v2, |v: ValueId| 0int, prev, hit, p, next);
                            assert forall|leaf: spec_fn(ValueId) -> int| ((next.0).0 as int) < n0
                                || 0 <= #[trigger] computed(v2, n0, leaf, next.0) <= 1 by {
                                lemma_hit(l, vb, v1, leaf, addr, p, hit);
                                lemma_layer(l, v1, v2, leaf, prev, hit, p, next);
                            }
                            assert forall|leaf: spec_fn(ValueId) -> int| #[trigger] consistent(l, leaf)
                                implies reads_through(v2, l, *env, name, leaf, addr, (slot + 1) as nat, answer) by {
                                lemma_hit(l, vb, v1, leaf, addr, p, hit);
                                lemma_layer(l, v1, v2, leaf, prev, hit, p, next);
                                assert(reads_through(vb, l, *env, name, leaf, addr, slot as nat, prev));
                                match prev {
                                    Some((ph, pd)) => {
                                        lemma_computed_grows(vb, v1, n0, leaf, ph);
                                        lemma_computed_grows(vb, v1, n0, leaf, pd);
                                    },
                                    None => {
                                        assert(latest_hit(l, *env, name, leaf, addr, slot as nat) is None);
                                    },
                                }
                                assert(slot_port(*env, name, slot as nat) == Some(p));
                            }
                        }
                    }
                },
            }
            proof {
                lemma_adds_trans(old(self), &before, self, 4 * slot as nat, 4);
            }
            slot = slot + 1;
        }
        answer
    }
}

/// Field `f` of a port: 0 the enable, 1 the address, 2 the data.
pub open spec fn port_field(p: WritePort, f: int) -> ValueId {
    if f == 0 {
        p.we
    } else if f == 1 {
        p.addr
    } else {
        p.data
    }
}

/// A `Case`'s arms as plain values: each arm's labels and value.
pub open spec fn case_view(arms: Seq<(Vec<u128>, ValueId)>) -> Seq<(Seq<u128>, ValueId)> {
    arms.map_values(|a: (Vec<u128>, ValueId)| (a.0@, a.1))
}

/// `r` is `d` itself when `want` is empty, else a `Case` on `tag` with
/// exactly the arms `want`, falling back to `d`.
pub open spec fn cased(vals: Seq<ValueDef>, tag: ValueId, d: ValueId, want: Seq<(Seq<u128>, ValueId)>, r: ValueId) -> bool {
    if want.len() == 0 {
        r == d
    } else {
        &&& (r.0 as int) < vals.len()
        &&& vals[r.0 as int].op matches Op::Case { scrutinee, arms, default } && scrutinee == tag && default == d
            && case_view(arms@) == want
    }
}

/// The port the default arm leaves in slot `s`: its own where it filled the
/// slot, else the idle port.
pub open spec fn case_default(default_env: Env, default_n: usize, m: Memory, s: nat) -> WritePort {
    if default_n > s && slot_port(default_env, m.name@, s) is Some {
        slot_port(default_env, m.name@, s)->0
    } else {
        m.idle
    }
}

/// The arms before `upto` whose port in slot `s` of memory `m` differs in
/// field `f` from the default's `d`, each with its labels, in order.
pub open spec fn differing(arms: Seq<(Vec<u128>, Env, Vec<usize>)>, upto: int, m: Memory, ix: int, s: nat, d: ValueId, f: int) -> Seq<(Seq<u128>, ValueId)>
    decreases upto,
{
    if upto <= 0 {
        Seq::empty()
    } else {
        let prev = differing(arms, upto - 1, m, ix, s, d, f);
        let v = port_field(case_default(arms[upto - 1].1, arms[upto - 1].2@[ix], m, s), f);
        if v != d {
            prev.push((arms[upto - 1].0@, v))
        } else {
            prev
        }
    }
}

/// Field `f` of slot `s` of memory `m` (number `ix`) after a `match` join:
/// the default arm's field, chosen among the other arms' by the tag.
pub open spec fn cased_field(vals: Seq<ValueDef>, tag: ValueId, arms: Seq<(Vec<u128>, Env, Vec<usize>)>, ix: int, w: WritePort, m: Memory, s: nat, f: int) -> bool {
    let d = port_field(case_default(arms.last().1, arms.last().2@[ix], m, s), f);
    cased(vals, tag, d, differing(arms, arms.len() - 1, m, ix, s, d, f), port_field(w, f))
}

/// One slot of one memory after a `match` join.
pub open spec fn cased_slot(vals: Seq<ValueDef>, tag: ValueId, arms: Seq<(Vec<u128>, Env, Vec<usize>)>, ix: int, env: Env, m: Memory, s: nat) -> bool {
    &&& slot_port(env, m.name@, s) is Some
    &&& cased_field(vals, tag, arms, ix, slot_port(env, m.name@, s)->0, m, s, 0)
    &&& cased_field(vals, tag, arms, ix, slot_port(env, m.name@, s)->0, m, s, 1)
    &&& cased_field(vals, tag, arms, ix, slot_port(env, m.name@, s)->0, m, s, 2)
}

/// The most slots any arm took for memory `ix`.
pub open spec fn max_count(arms: Seq<(Vec<u128>, Env, Vec<usize>)>, ix: int, upto: int) -> nat
    decreases upto,
{
    if upto <= 0 {
        0
    } else {
        let prev = max_count(arms, ix, upto - 1);
        let c = arms[upto - 1].2@[ix] as nat;
        if c > prev { c } else { prev }
    }
}

proof fn lemma_cased_grows(a: Seq<ValueDef>, b: Seq<ValueDef>, tag: ValueId, d: ValueId, want: Seq<(Seq<u128>, ValueId)>, r: ValueId)
    requires
        grows(a, b),
        cased(a, tag, d, want, r),
    ensures
        cased(b, tag, d, want, r),
{
    if want.len() != 0 {
        assert(b[r.0 as int].op == a[r.0 as int].op);
    }
}

/// A copy of a label list holds the same labels.
proof fn lemma_labels_cloned(a: &Vec<u128>, b: &Vec<u128>)
    requires
        b.len() == a.len(),
        forall|i: int| 0 <= i < a.len() ==> cloned::<u128>(a[i], b[i]),
    ensures
        b@ == a@,
{
    assert forall|i: int| 0 <= i < a.len() implies b@[i] == a@[i] by {
        assert(cloned::<u128>(a[i], b[i]));
    }
    assert(b@ =~= a@);
}

proof fn lemma_cased_slot_grows(a: Seq<ValueDef>, b: Seq<ValueDef>, tag: ValueId, arms: Seq<(Vec<u128>, Env, Vec<usize>)>, ix: int, env: Env, m: Memory, s: nat)
    requires
        grows(a, b),
        cased_slot(a, tag, arms, ix, env, m, s),
    ensures
        cased_slot(b, tag, arms, ix, env, m, s),
{
    let w = slot_port(env, m.name@, s)->0;
    let d = case_default(arms.last().1, arms.last().2@[ix], m, s);
    lemma_cased_grows(a, b, tag, d.we, differing(arms, arms.len() - 1, m, ix, s, d.we, 0), w.we);
    lemma_cased_grows(a, b, tag, d.addr, differing(arms, arms.len() - 1, m, ix, s, d.addr, 1), w.addr);
    lemma_cased_grows(a, b, tag, d.data, differing(arms, arms.len() - 1, m, ix, s, d.data, 2), w.data);
}

impl Lowerer {
    /// A `Case` on `tag`, or the default alone when no arm disagreed with it.
    fn case_or_same(&mut self, tag: ValueId, arms: Vec<(Vec<u128>, ValueId)>, default: ValueId, ty: Ty) -> (r: ValueId)
        requires
            old(self).inv(),
            old(self).room(1),
            vid_ok(tag, old(self).vals().len()),
            vid_ok(default, old(self).vals().len()),
            forall|j: int| 0 <= j < arms@.len() ==> vid_ok((#[trigger] arms@[j]).1, old(self).vals().len()),
        ensures
            final(self).inv(),
            final(self).adds(old(self), 1),
            cased(final(self).vals(), tag, default, case_view(arms@), r),
            arms@.len() == 0 ==> r == default,
            vid_ok(r, final(self).vals().len()),
    {
        if arms.len() == 0 {
            proof { lemma_adds_none(self); }
            return default;
        }
        let ghost vb = self.vals();
        let ghost op = Op::Case { scrutinee: tag, arms, default };
        let r = self.emit(ty, Op::Case { scrutinee: tag, arms, default });
        proof {
            lemma_emitted(vb, ty, op);
        }
        r
    }

    /// The port one arm of a `match` leaves in a slot: its own where it
    /// filled the slot, else `idle`.
    fn arm_port(&self, ix: usize, slot: usize, arm_env: &Env, count: usize, idle: WritePort) -> (p: WritePort)
        requires
            ix < self.mems@.len(),
            idle == self.mems@[ix as int].idle,
        ensures
            p == case_default(*arm_env, count, self.mems@[ix as int], slot as nat),
    {
        if count > slot {
            match self.write_slot(ix, slot, arm_env) {
                Some(p) => p,
                None => idle,
            }
        } else {
            idle
        }
    }

    /// Joins the write ports a `match`'s arms created.
    ///
    /// The `if` join with more than two ways to go: `arms` is every arm's
    /// labels, environment and slot counts in order, the LAST being the
    /// default, and each field becomes a `Case` on the tag rather than a mux.
    /// Only arms that differ from the default earn a label, the same rule
    /// the value join uses -- otherwise every arm would contribute an entry
    /// for every port of every memory. No arms, no change.
    pub fn join_write_slots_case(&mut self, tag: ValueId, base: &[usize], arms: &[(Vec<u128>, Env, Vec<usize>)], env: &mut Env)
        requires
            old(self).inv(),
            names_distinct(old(self).mems@),
            base@.len() == old(self).mems@.len(),
            vid_ok(tag, old(self).vals().len()),
            forall|a: int| #![trigger arms@[a]] 0 <= a < arms@.len() ==> {
                &&& arms@[a].2@.len() == old(self).mems@.len()
                &&& env_ok(arms@[a].1, old(self).vals().len())
            },
            old(self).vals().len() + 3 * sum_max_counts(arms@, base@.len() as int) < u32::MAX,
        ensures
            final(self).inv(),
            grows(old(self).vals(), final(self).vals()),
            final(self).mems == old(self).mems,
            final(self).path_view() == old(self).path_view(),
            final(self).asserts == old(self).asserts,
            final(self).pipes == old(self).pipes,
            arms@.len() == 0 ==> *final(self) == *old(self) && *final(env) == *old(env),
            arms@.len() > 0 ==> {
                &&& final(self).slots().len() == old(self).slots().len()
                &&& forall|j: int| 0 <= j < base@.len() ==> #[trigger] final(self).slots()[j] == max_count(arms@, j, arms@.len() as int)
                &&& forall|j: int, s: nat| #![trigger slot_port(*final(env), old(self).mems@[j].name@, s)]
                    0 <= j < base@.len() && base@[j] <= s < max_count(arms@, j, arms@.len() as int) ==> cased_slot(final(self).vals(), tag, arms@, j, *final(env), old(self).mems@[j], s)
                &&& forall|k: Seq<char>| #![trigger final(env).lookup(k)]
                    (forall|j: int, s: nat| 0 <= j < base@.len() ==> !#[trigger] key_of_slot(k, old(self).mems@[j].name@, s))
                        ==> final(env).lookup(k) == old(env).lookup(k)
            },
    {
        if arms.len() == 0 {
            return;
        }
        let last = arms.len() - 1;
        let ghost env0 = *env;
        let ghost low0 = *self;
        let ghost darm = arms@[last as int];
        let nm = self.mems.len();
        let mut ix: usize = 0;
        proof {
            assert forall|j: int| 0 <= j < low0.mems@.len() implies write_port_ok((#[trigger] low0.mems@[j]).idle, low0.vals().len()) by {
                assert(mem_ok(low0.mems@[j], low0.vals().len()));
            }
        }
        while ix < nm
            invariant
                self.inv(),
                low0.inv(),
                nm == self.mems@.len(),
                ix <= nm,
                last + 1 == arms@.len(),
                darm == arms@[last as int],
                self.mems == low0.mems,
                self.path_view() == low0.path_view(),
                self.asserts == low0.asserts,
                self.pipes == low0.pipes,
                grows(low0.vals(), self.vals()),
                self.slots().len() == nm,
                forall|j: int| 0 <= j < ix ==> #[trigger] self.slots()[j] == max_count(arms@, j, arms@.len() as int),
                names_distinct(low0.mems@),
                base@.len() == nm,
                vid_ok(tag, low0.vals().len()),
                forall|a: int| #![trigger arms@[a]] 0 <= a < arms@.len() ==> {
                    &&& arms@[a].2@.len() == nm
                    &&& env_ok(arms@[a].1, low0.vals().len())
                },
                low0.vals().len() + 3 * sum_max_counts(arms@, nm as int) < u32::MAX,
                self.vals().len() <= low0.vals().len() + 3 * sum_max_counts(arms@, ix as int),
                forall|j: int| 0 <= j < low0.mems@.len() ==> write_port_ok((#[trigger] low0.mems@[j]).idle, low0.vals().len()),
                forall|j: int, s: nat| #![trigger slot_port(*env, low0.mems@[j].name@, s)]
                    0 <= j < ix && base@[j] <= s < max_count(arms@, j, arms@.len() as int) ==> cased_slot(self.vals(), tag, arms@, j, *env, low0.mems@[j], s),
                forall|k: Seq<char>| #![trigger env.lookup(k)]
                    (forall|j: int, s: nat| 0 <= j < ix ==> !#[trigger] key_of_slot(k, low0.mems@[j].name@, s))
                        ==> env.lookup(k) == env0.lookup(k),
            decreases nm - ix,
        {
            let mut n: usize = 0;
            let mut a: usize = 0;
            while a < arms.len()
                invariant
                    a <= arms@.len(),
                    ix < nm,
                    forall|b: int| #![trigger arms@[b]] 0 <= b < arms@.len() ==> arms@[b].2@.len() == nm,
                    n == max_count(arms@, ix as int, a as int),
                decreases arms@.len() - a,
            {
                let c = arms[a].2[ix];
                if c > n {
                    n = c;
                }
                a = a + 1;
            }
            let ghost name = low0.mems@[ix as int].name@;
            let mut slot = base[ix];
            proof {
                assert forall|s: nat| #![trigger slot_port(*env, name, s)] slot <= s implies slot_port(*env, name, s) == slot_port(env0, name, s) by {
                    lemma_untouched_slot(*env, env0, low0, ix as int, s);
                }
                lemma_sum_max_split(arms@, ix as int);
                lemma_sum_max_mono(arms@, ix + 1, nm as int);
            }
            while slot < n
                invariant
                    self.inv(),
                    low0.inv(),
                    nm == self.mems@.len(),
                    ix < nm,
                    last + 1 == arms@.len(),
                    darm == arms@[last as int],
                    n == max_count(arms@, ix as int, arms@.len() as int),
                    self.mems == low0.mems,
                    self.path_view() == low0.path_view(),
                    self.asserts == low0.asserts,
                    self.pipes == low0.pipes,
                    grows(low0.vals(), self.vals()),
                    self.slots().len() == nm,
                    forall|j: int| 0 <= j < ix ==> #[trigger] self.slots()[j] == max_count(arms@, j, arms@.len() as int),
                    names_distinct(low0.mems@),
                    base@.len() == nm,
                    name == low0.mems@[ix as int].name@,
                    vid_ok(tag, low0.vals().len()),
                    forall|b: int| #![trigger arms@[b]] 0 <= b < arms@.len() ==> {
                        &&& arms@[b].2@.len() == nm
                        &&& env_ok(arms@[b].1, low0.vals().len())
                    },
                    self.vals().len() + 3 * (if slot <= n { n - slot } else { 0 }) <= low0.vals().len() + 3 * sum_max_counts(arms@, ix + 1),
                    low0.vals().len() + 3 * sum_max_counts(arms@, ix + 1) < u32::MAX,
                    forall|j: int| 0 <= j < low0.mems@.len() ==> write_port_ok((#[trigger] low0.mems@[j]).idle, low0.vals().len()),
                    forall|j: int, s: nat| #![trigger slot_port(*env, low0.mems@[j].name@, s)]
                        0 <= j < ix && base@[j] <= s < max_count(arms@, j, arms@.len() as int) ==> cased_slot(self.vals(), tag, arms@, j, *env, low0.mems@[j], s),
                    forall|s: nat| #![trigger slot_port(*env, name, s)]
                        base@[ix as int] <= s < slot ==> cased_slot(self.vals(), tag, arms@, ix as int, *env, low0.mems@[ix as int], s),
                    forall|s: nat| #![trigger slot_port(*env, name, s)]
                        slot <= s ==> slot_port(*env, name, s) == slot_port(env0, name, s),
                    forall|k: Seq<char>| #![trigger env.lookup(k)]
                        (forall|j: int, s: nat| 0 <= j <= ix ==> !#[trigger] key_of_slot(k, low0.mems@[j].name@, s))
                            ==> env.lookup(k) == env0.lookup(k),
                decreases n - slot,
            {
                let idle = self.mems[ix].idle;
                let default = self.arm_port(ix, slot, &arms[last].1, arms[last].2[ix], idle);
                proof {
                    lemma_slot_port_ok(darm.1, name, slot as nat, low0.vals().len());
                    assert(write_port_ok(default, low0.vals().len()));
                }
                let ghost m = low0.mems@[ix as int];
                proof {
                    assert(arms@.last() == darm);
                }
                let mut we_arms: Vec<(Vec<u128>, ValueId)> = Vec::new();
                let mut addr_arms: Vec<(Vec<u128>, ValueId)> = Vec::new();
                let mut data_arms: Vec<(Vec<u128>, ValueId)> = Vec::new();
                let mut a: usize = 0;
                proof {
                    assert(case_view(we_arms@) =~= Seq::empty());
                    assert(case_view(addr_arms@) =~= Seq::empty());
                    assert(case_view(data_arms@) =~= Seq::empty());
                }
                while a < last
                    invariant
                        a <= last,
                        last + 1 == arms@.len(),
                        ix < nm,
                        nm == self.mems@.len(),
                        m == self.mems@[ix as int],
                        idle == self.mems@[ix as int].idle,
                        write_port_ok(idle, low0.vals().len()),
                        grows(low0.vals(), self.vals()),
                        forall|b: int| #![trigger arms@[b]] 0 <= b < arms@.len() ==> {
                            &&& arms@[b].2@.len() == nm
                            &&& env_ok(arms@[b].1, low0.vals().len())
                        },
                        name == self.mems@[ix as int].name@,
                        forall|j: int| 0 <= j < we_arms@.len() ==> vid_ok((#[trigger] we_arms@[j]).1, low0.vals().len()),
                        forall|j: int| 0 <= j < addr_arms@.len() ==> vid_ok((#[trigger] addr_arms@[j]).1, low0.vals().len()),
                        forall|j: int| 0 <= j < data_arms@.len() ==> vid_ok((#[trigger] data_arms@[j]).1, low0.vals().len()),
                        case_view(we_arms@) == differing(arms@, a as int, m, ix as int, slot as nat, default.we, 0),
                        case_view(addr_arms@) == differing(arms@, a as int, m, ix as int, slot as nat, default.addr, 1),
                        case_view(data_arms@) == differing(arms@, a as int, m, ix as int, slot as nat, default.data, 2),
                    decreases last - a,
                {
                    let p = self.arm_port(ix, slot, &arms[a].1, arms[a].2[ix], idle);
                    proof {
                        lemma_slot_port_ok(arms@[a as int].1, name, slot as nat, low0.vals().len());
                    }
                    let ghost labels = arms@[a as int].0@;
                    if p.we != default.we {
                        let l = arms[a].0.clone();
                        proof { lemma_labels_cloned(&arms@[a as int].0, &l); }
                        let ghost before = we_arms@;
                        we_arms.push((l, p.we));
                        proof { assert(case_view(we_arms@) =~= case_view(before).push((labels, p.we))); }
                    }
                    if p.addr != default.addr {
                        let l = arms[a].0.clone();
                        proof { lemma_labels_cloned(&arms@[a as int].0, &l); }
                        let ghost before = addr_arms@;
                        addr_arms.push((l, p.addr));
                        proof { assert(case_view(addr_arms@) =~= case_view(before).push((labels, p.addr))); }
                    }
                    if p.data != default.data {
                        let l = arms[a].0.clone();
                        proof { lemma_labels_cloned(&arms@[a as int].0, &l); }
                        let ghost before = data_arms@;
                        data_arms.push((l, p.data));
                        proof { assert(case_view(data_arms@) =~= case_view(before).push((labels, p.data))); }
                    }
                    a = a + 1;
                }
                let ghost env_before = *env;
                let ghost vals_before = self.vals();
                let ghost want_we = case_view(we_arms@);
                let ghost want_addr = case_view(addr_arms@);
                let aw = self.mems[ix].addr_width;
                let elem = self.mems[ix].elem.clone();
                let we = self.case_or_same(tag, we_arms, default.we, bool_type());
                let ghost v1 = self.vals();
                let addr = self.case_or_same(tag, addr_arms, default.addr, Ty::UInt(aw));
                let ghost v2 = self.vals();
                let data = self.case_or_same(tag, data_arms, default.data, elem);
                proof {
                    lemma_cased_grows(v1, self.vals(), tag, default.we, want_we, we);
                    lemma_cased_grows(v2, self.vals(), tag, default.addr, want_addr, addr);
                }
                self.put_write_slot(ix, slot, WritePort { we, addr, data }, env);
                proof {
                    lemma_case_step(self.vals(), vals_before, low0, tag, env0, env_before, *env, ix as int, slot as nat, base@, arms@);
                }
                slot = slot + 1;
            }
            self.set_mem_slots(ix, n);
            ix = ix + 1;
        }
    }
}

/// The slot counts the arms may need, from memory 0 up to `ix`.
pub open spec fn sum_max_counts(arms: Seq<(Vec<u128>, Env, Vec<usize>)>, ix: int) -> nat
    decreases ix,
{
    if ix <= 0 {
        0
    } else {
        sum_max_counts(arms, ix - 1) + max_count(arms, ix - 1, arms.len() as int)
    }
}

proof fn lemma_sum_max_split(arms: Seq<(Vec<u128>, Env, Vec<usize>)>, ix: int)
    requires
        0 <= ix,
    ensures
        sum_max_counts(arms, ix + 1) == sum_max_counts(arms, ix) + max_count(arms, ix, arms.len() as int),
{
}

proof fn lemma_sum_max_mono(arms: Seq<(Vec<u128>, Env, Vec<usize>)>, i: int, j: int)
    requires
        0 <= i <= j,
    ensures
        sum_max_counts(arms, i) <= sum_max_counts(arms, j),
    decreases j - i,
{
    if i < j {
        lemma_sum_max_mono(arms, i, j - 1);
    }
}

/// One step of the `match` join's inner loop keeps what the loop promises.
proof fn lemma_case_step(
    vals: Seq<ValueDef>,
    vals_before: Seq<ValueDef>,
    low0: Lowerer,
    tag: ValueId,
    env0: Env,
    env_before: Env,
    env: Env,
    ix: int,
    slot: nat,
    base: Seq<usize>,
    arms: Seq<(Vec<u128>, Env, Vec<usize>)>,
)
    requires
        0 <= ix < low0.mems@.len(),
        names_distinct(low0.mems@),
        base.len() == low0.mems@.len(),
        grows(vals_before, vals),
        forall|k: Seq<char>| !key_of_slot(k, low0.mems@[ix].name@, slot) ==> env.lookup(k) == env_before.lookup(k),
        cased_slot(vals, tag, arms, ix, env, low0.mems@[ix], slot),
        forall|j: int, s: nat| #![trigger slot_port(env_before, low0.mems@[j].name@, s)]
            0 <= j < ix && base[j] <= s < max_count(arms, j, arms.len() as int) ==> cased_slot(vals_before, tag, arms, j, env_before, low0.mems@[j], s),
        forall|s: nat| #![trigger slot_port(env_before, low0.mems@[ix].name@, s)]
            base[ix] <= s < slot ==> cased_slot(vals_before, tag, arms, ix, env_before, low0.mems@[ix], s),
        forall|s: nat| #![trigger slot_port(env_before, low0.mems@[ix].name@, s)]
            slot < s ==> slot_port(env_before, low0.mems@[ix].name@, s) == slot_port(env0, low0.mems@[ix].name@, s),
        forall|k: Seq<char>| #![trigger env_before.lookup(k)]
            (forall|j: int, s: nat| 0 <= j <= ix ==> !#[trigger] key_of_slot(k, low0.mems@[j].name@, s))
                ==> env_before.lookup(k) == env0.lookup(k),
    ensures
        forall|j: int, s: nat| #![trigger slot_port(env, low0.mems@[j].name@, s)]
            0 <= j < ix && base[j] <= s < max_count(arms, j, arms.len() as int) ==> cased_slot(vals, tag, arms, j, env, low0.mems@[j], s),
        forall|s: nat| #![trigger slot_port(env, low0.mems@[ix].name@, s)]
            base[ix] <= s < slot + 1 ==> cased_slot(vals, tag, arms, ix, env, low0.mems@[ix], s),
        forall|s: nat| #![trigger slot_port(env, low0.mems@[ix].name@, s)]
            slot + 1 <= s ==> slot_port(env, low0.mems@[ix].name@, s) == slot_port(env0, low0.mems@[ix].name@, s),
        forall|k: Seq<char>| #![trigger env.lookup(k)]
            (forall|j: int, s: nat| 0 <= j <= ix ==> !#[trigger] key_of_slot(k, low0.mems@[j].name@, s))
                ==> env.lookup(k) == env0.lookup(k),
{
    let name = low0.mems@[ix].name@;
    assert forall|j: int, s: nat| #![trigger slot_port(env, low0.mems@[j].name@, s)]
        0 <= j < ix && base[j] <= s < max_count(arms, j, arms.len() as int) implies cased_slot(vals, tag, arms, j, env, low0.mems@[j], s) by {
        assert(low0.mems@[j].name@ != name);
        lemma_other_slot_same(env_before, env, name, slot, low0.mems@[j].name@, s);
        assert(slot_port(env_before, low0.mems@[j].name@, s) == slot_port(env_before, low0.mems@[j].name@, s));
        lemma_cased_slot_grows(vals_before, vals, tag, arms, j, env, low0.mems@[j], s);
    }
    assert forall|s: nat| #![trigger slot_port(env, low0.mems@[ix].name@, s)]
        base[ix] <= s < slot + 1 implies cased_slot(vals, tag, arms, ix, env, low0.mems@[ix], s) by {
        if s < slot {
            lemma_other_slot_same(env_before, env, name, slot, name, s);
            assert(slot_port(env_before, name, s) == slot_port(env_before, name, s));
            lemma_cased_slot_grows(vals_before, vals, tag, arms, ix, env, low0.mems@[ix], s);
        }
    }
    assert forall|s: nat| #![trigger slot_port(env, low0.mems@[ix].name@, s)]
        slot + 1 <= s implies slot_port(env, low0.mems@[ix].name@, s) == slot_port(env0, low0.mems@[ix].name@, s) by {
        lemma_other_slot_same(env_before, env, name, slot, name, s);
        assert(slot_port(env_before, name, s) == slot_port(env0, name, s));
    }
    assert forall|k: Seq<char>| #![trigger env.lookup(k)]
        (forall|j: int, s: nat| 0 <= j <= ix ==> !#[trigger] key_of_slot(k, low0.mems@[j].name@, s))
            implies env.lookup(k) == env0.lookup(k) by {
        assert(!key_of_slot(k, low0.mems@[ix].name@, slot));
        assert(env_before.lookup(k) == env0.lookup(k));
    }
}

} // verus!
