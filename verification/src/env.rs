// What names are bound to while a body is lowered.

use vstd::prelude::*;
use crate::ir::ValueId;
use crate::ty::Ty;

verus! {

/// What a name is bound to while lowering.
#[derive(Debug)]
pub struct Binding {
    pub value: Option<ValueId>,
    pub ty: Ty,
    /// Output parameters are assigned rather than read.
    pub is_output: bool,
    /// Declared `var`. `let` is a constant, and assigning to one is an error.
    pub is_mutable: bool,
}

impl Clone for Binding {
    fn clone(&self) -> (r: Self)
        ensures
            r == *self,
    {
        Binding {
            value: self.value,
            ty: self.ty.clone(),
            is_output: self.is_output,
            is_mutable: self.is_mutable,
        }
    }
}

impl Binding {
    pub open spec fn constant_spec(value: ValueId, ty: Ty) -> Binding {
        Binding { value: Some(value), ty, is_output: false, is_mutable: false }
    }

    /// A `let`: bound once, never assigned.
    pub fn constant(value: ValueId, ty: Ty) -> (b: Binding)
        ensures
            b == Binding::constant_spec(value, ty),
    {
        Binding { value: Some(value), ty, is_output: false, is_mutable: false }
    }

    /// A `var`: state, or a mutable local.
    pub fn variable(value: ValueId, ty: Ty) -> (b: Binding)
        ensures
            b == (Binding { value: Some(value), ty, is_output: false, is_mutable: true }),
    {
        Binding { value: Some(value), ty, is_output: false, is_mutable: true }
    }
}

/// The first binding of `key` in `entries`.
pub open spec fn find(entries: Seq<(String, Binding)>, key: Seq<char>) -> Option<Binding>
    decreases entries.len(),
{
    if entries.len() == 0 {
        None
    } else if entries[0].0@ == key {
        Some(entries[0].1)
    } else {
        find(entries.drop_first(), key)
    }
}

/// Two entry lists with the same names and bindings, one for one, bind
/// every name alike.
proof fn lemma_find_same(a: Seq<(String, Binding)>, b: Seq<(String, Binding)>, key: Seq<char>)
    requires
        a.len() == b.len(),
        forall|j: int| 0 <= j < a.len() ==> (#[trigger] a[j]).0@ == b[j].0@ && a[j].1 == b[j].1,
    ensures
        find(a, key) == find(b, key),
    decreases a.len(),
{
    if a.len() > 0 {
        assert(a[0].0@ == b[0].0@);
        lemma_find_same(a.drop_first(), b.drop_first(), key);
    }
}

/// The names in scope and what each is bound to.
pub struct Env {
    entries: Vec<(String, Binding)>,
}

impl Clone for Env {
    /// A copy that binds every name as this one does, for one arm of a
    /// branch to change on its own.
    fn clone(&self) -> (r: Self)
        ensures
            forall|k: Seq<char>| #[trigger] r.lookup(k) == self.lookup(k),
    {
        let mut entries: Vec<(String, Binding)> = Vec::new();
        let mut i: usize = 0;
        while i < self.entries.len()
            invariant
                i <= self.entries@.len(),
                entries@.len() == i,
                forall|j: int| 0 <= j < i ==> (#[trigger] entries@[j]).0@ == self.entries@[j].0@
                    && entries@[j].1 == self.entries@[j].1,
            decreases self.entries@.len() - i,
        {
            let name = self.entries[i].0.clone();
            let b = self.entries[i].1.clone();
            entries.push((name, b));
            i = i + 1;
        }
        let r = Env { entries };
        proof {
            assert forall|k: Seq<char>| #[trigger] r.lookup(k) == self.lookup(k) by {
                lemma_find_same(r.entries@, self.entries@, k);
            }
        }
        r
    }
}

impl Env {
    /// What `key` is bound to.
    pub closed spec fn lookup(&self, key: Seq<char>) -> Option<Binding> {
        find(self.entries@, key)
    }

    /// The value `key` is bound to, if it is bound to one.
    pub open spec fn value_of(&self, key: Seq<char>) -> Option<ValueId> {
        match self.lookup(key) {
            Some(b) => b.value,
            None => None,
        }
    }

    pub fn new() -> (e: Env)
        ensures
            forall|k: Seq<char>| e.lookup(k) is None,
    {
        Env { entries: Vec::new() }
    }

    /// Where `key` first occurs, if it does.
    fn position(&self, key: &str) -> (r: Option<usize>)
        ensures
            match r {
                Some(i) => i < self.entries@.len() && self.entries@[i as int].0@ == key@ && find(
                    self.entries@,
                    key@,
                ) == Some(self.entries@[i as int].1) && forall|j: int|
                    0 <= j < i ==> self.entries@[j].0@ != key@,
                None => find(self.entries@, key@) is None && forall|j: int|
                    0 <= j < self.entries@.len() ==> self.entries@[j].0@ != key@,
            },
    {
        let k = String::from_str(key);
        let mut i: usize = 0;
        proof { assert(self.entries@.subrange(0, self.entries@.len() as int) =~= self.entries@); }
        while i < self.entries.len()
            invariant
                k@ == key@,
                i <= self.entries@.len(),
                forall|j: int| 0 <= j < i ==> self.entries@[j].0@ != key@,
                find(self.entries@, key@) == find(self.entries@.subrange(i as int, self.entries@.len() as int), key@),
            decreases self.entries@.len() - i,
        {
            let here = self.entries[i].0 == k;
            proof {
                let rest = self.entries@.subrange(i as int, self.entries@.len() as int);
                assert(rest[0] == self.entries@[i as int]);
                assert(rest.drop_first() =~= self.entries@.subrange(i + 1, self.entries@.len() as int));
            }
            if here {
                return Some(i);
            }
            i = i + 1;
        }
        proof {
            assert(self.entries@.subrange(i as int, self.entries@.len() as int).len() == 0);
        }
        None
    }

    /// What `key` is bound to, by reference.
    pub fn get(&self, key: &str) -> (r: Option<&Binding>)
        ensures
            match r {
                Some(b) => self.lookup(key@) == Some(*b),
                None => self.lookup(key@) is None,
            },
    {
        match self.position(key) {
            Some(i) => Some(&self.entries[i].1),
            None => None,
        }
    }

    /// The value `key` is bound to, if it is bound to one.
    pub fn get_value(&self, key: &str) -> (r: Option<ValueId>)
        ensures
            r == self.value_of(key@),
    {
        match self.get(key) {
            Some(b) => b.value,
            None => None,
        }
    }

    /// Binds `key`, replacing whatever it was bound to.
    pub fn insert(&mut self, key: String, b: Binding)
        ensures
            final(self).lookup(key@) == Some(b),
            forall|k: Seq<char>| k != key@ ==> final(self).lookup(k) == old(self).lookup(k),
    {
        let ghost old_entries = self.entries@;
        let ghost kv = key@;
        match self.position(key.as_str()) {
            Some(i) => {
                self.entries.set(i, (key, b));
                proof {
                    let e = self.entries@[i as int];
                    assert(self.entries@ == old_entries.update(i as int, e));
                    lemma_find_set_one(old_entries, i as int, kv, e);
                    assert forall|k: Seq<char>| k != kv implies find(self.entries@, k) == find(old_entries, k) by {
                        lemma_find_set_other(old_entries, i as int, e, k);
                    }
                }
            },
            None => {
                self.entries.push((key, b));
                proof {
                    let e = self.entries@.last();
                    assert(self.entries@ == old_entries.push(e));
                    lemma_find_push_new(old_entries, e, kv);
                }
            },
        }
    }

    /// Unbinds `key`.
    pub fn remove(&mut self, key: &str)
        ensures
            final(self).lookup(key@) is None,
            forall|k: Seq<char>| k != key@ ==> final(self).lookup(k) == old(self).lookup(k),
    {
        let ghost old_entries = self.entries@;
        let k0 = String::from_str(key);
        let mut kept: Vec<(String, Binding)> = Vec::new();
        let mut i: usize = 0;
        proof { assert(old_entries.subrange(0, old_entries.len() as int) =~= old_entries); }
        let n = self.entries.len();
        while i < n
            invariant
                n == old_entries.len(),
                i <= n,
                k0@ == key@,
                self.entries@ == old_entries,
                forall|j: int| 0 <= j < kept@.len() ==> kept@[j].0@ != key@,
                forall|k: Seq<char>|
                    k != key@ ==> find(old_entries, k) == match find(kept@, k) {
                        Some(b) => Some(b),
                        None => find(old_entries.subrange(i as int, n as int), k),
                    },
            decreases n - i,
        {
            let is_key = self.entries[i].0 == k0;
            let ghost before = kept@;
            if !is_key {
                let name = self.entries[i].0.clone();
                let b = self.entries[i].1.clone();
                kept.push((name, b));
            }
            proof {
                let rest = old_entries.subrange(i as int, n as int);
                assert(rest[0] == old_entries[i as int]);
                assert(rest.drop_first() =~= old_entries.subrange(i + 1, n as int));
                assert forall|k: Seq<char>| k != key@ implies find(old_entries, k) == match find(kept@, k) {
                    Some(b) => Some(b),
                    None => find(old_entries.subrange(i + 1, n as int), k),
                } by {
                    if !is_key {
                        lemma_find_append(before, old_entries[i as int], k);
                    }
                }
            }
            i = i + 1;
        }
        proof {
            assert(old_entries.subrange(n as int, n as int).len() == 0);
            lemma_find_absent(kept@, key@);
        }
        self.entries = kept;
    }
}

proof fn lemma_find_set_one(s: Seq<(String, Binding)>, i: int, key: Seq<char>, e: (String, Binding))
    requires
        0 <= i < s.len(),
        e.0@ == key,
        forall|j: int| 0 <= j < i ==> s[j].0@ != key,
    ensures
        find(s.update(i, e), key) == Some(e.1),
    decreases s.len(),
{
    if i > 0 {
        assert(s.update(i, e).drop_first() =~= s.drop_first().update(i - 1, e));
        lemma_find_set_one(s.drop_first(), i - 1, key, e);
    }
}

proof fn lemma_find_set_other(s: Seq<(String, Binding)>, i: int, e: (String, Binding), k: Seq<char>)
    requires
        0 <= i < s.len(),
        s[i].0@ == e.0@,
        k != e.0@,
    ensures
        find(s.update(i, e), k) == find(s, k),
    decreases s.len(),
{
    if i > 0 {
        assert(s.update(i, e).drop_first() =~= s.drop_first().update(i - 1, e));
        lemma_find_set_other(s.drop_first(), i - 1, e, k);
    } else {
        assert(s.update(i, e).drop_first() =~= s.drop_first());
    }
}

proof fn lemma_find_push_new(s: Seq<(String, Binding)>, e: (String, Binding), key: Seq<char>)
    requires
        e.0@ == key,
        forall|j: int| 0 <= j < s.len() ==> s[j].0@ != key,
    ensures
        find(s.push(e), key) == Some(e.1),
        forall|k: Seq<char>| k != key ==> find(s.push(e), k) == find(s, k),
    decreases s.len(),
{
    reveal_with_fuel(find, 2);
    if s.len() > 0 {
        assert(s.push(e)[0] == s[0]);
        assert(s.push(e).drop_first() =~= s.drop_first().push(e));
        lemma_find_push_new(s.drop_first(), e, key);
    } else {
        assert(s.push(e)[0] == e);
        assert(s.push(e).drop_first() =~= Seq::<(String, Binding)>::empty());
    }
    assert forall|k: Seq<char>| k != key implies find(s.push(e), k) == find(s, k) by {
        lemma_find_append(s, e, k);
    }
}

/// Looking a name up after an append finds the old binding first.
proof fn lemma_find_append(s: Seq<(String, Binding)>, e: (String, Binding), k: Seq<char>)
    ensures
        find(s.push(e), k) == match find(s, k) {
            Some(b) => Some(b),
            None => if e.0@ == k {
                Some(e.1)
            } else {
                None
            },
        },
    decreases s.len(),
{
    reveal_with_fuel(find, 2);
    if s.len() > 0 {
        assert(s.push(e)[0] == s[0]);
        assert(s.push(e).drop_first() =~= s.drop_first().push(e));
        lemma_find_append(s.drop_first(), e, k);
    } else {
        assert(s.push(e)[0] == e);
        assert(s.push(e).drop_first() =~= Seq::<(String, Binding)>::empty());
    }
}

proof fn lemma_find_absent(s: Seq<(String, Binding)>, k: Seq<char>)
    requires
        forall|j: int| 0 <= j < s.len() ==> s[j].0@ != k,
    ensures
        find(s, k) is None,
    decreases s.len(),
{
    if s.len() > 0 {
        lemma_find_absent(s.drop_first(), k);
    }
}

} // verus!
