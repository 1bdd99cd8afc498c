// Names in the order a reader looks for them.
//
// Strings are ordered character by character, a proper prefix first. For
// UTF-8 text this is the order Rust's `str` comparison gives, byte by byte.

use vstd::prelude::*;

verus! {

/// `a` comes before `b`.
pub open spec fn lex_lt(a: Seq<char>, b: Seq<char>) -> bool
    decreases a.len(),
{
    if a.len() == 0 {
        b.len() > 0
    } else if b.len() == 0 {
        false
    } else if a[0] != b[0] {
        a[0] < b[0]
    } else {
        lex_lt(a.drop_first(), b.drop_first())
    }
}

/// Two names are in order, possibly equal.
pub open spec fn lex_le(a: Seq<char>, b: Seq<char>) -> bool {
    a == b || lex_lt(a, b)
}

pub proof fn lemma_lex_irreflexive(a: Seq<char>)
    ensures
        !lex_lt(a, a),
    decreases a.len(),
{
    if a.len() > 0 {
        lemma_lex_irreflexive(a.drop_first());
    }
}

/// Of two different names exactly one comes first.
pub proof fn lemma_lex_total(a: Seq<char>, b: Seq<char>)
    ensures
        a != b ==> (lex_lt(a, b) != lex_lt(b, a)),
        a == b ==> !lex_lt(a, b),
    decreases a.len(),
{
    if a == b {
        lemma_lex_irreflexive(a);
    } else if a.len() == 0 {
        if b.len() == 0 {
            assert(a =~= b);
        }
    } else if b.len() == 0 {
    } else if a[0] == b[0] {
        lemma_lex_total(a.drop_first(), b.drop_first());
        if a.drop_first() == b.drop_first() {
            assert(a =~= seq![a[0]] + a.drop_first());
            assert(b =~= seq![b[0]] + b.drop_first());
        }
    } else {
        assert(a[0] < b[0] || b[0] < a[0]);
    }
}

pub proof fn lemma_lex_trans(a: Seq<char>, b: Seq<char>, c: Seq<char>)
    requires
        lex_lt(a, b),
        lex_lt(b, c),
    ensures
        lex_lt(a, c),
    decreases a.len(),
{
    if a.len() > 0 && b.len() > 0 && c.len() > 0 && a[0] == b[0] && b[0] == c[0] {
        lemma_lex_trans(a.drop_first(), b.drop_first(), c.drop_first());
    }
}

/// `x` placed before the first element it does not come after.
pub open spec fn sorted_insert(s: Seq<Seq<char>>, x: Seq<char>) -> Seq<Seq<char>>
    decreases s.len(),
{
    if s.len() == 0 {
        seq![x]
    } else if lex_le(x, s[0]) {
        seq![x] + s
    } else {
        seq![s[0]] + sorted_insert(s.drop_first(), x)
    }
}

/// `s` sorted, duplicates kept.
pub open spec fn sorted(s: Seq<Seq<char>>) -> Seq<Seq<char>>
    decreases s.len(),
{
    if s.len() == 0 {
        Seq::empty()
    } else {
        sorted_insert(sorted(s.drop_last()), s.last())
    }
}

/// `s` sorted, each name once.
pub open spec fn sorted_distinct(s: Seq<Seq<char>>) -> Seq<Seq<char>>
    decreases s.len(),
{
    if s.len() == 0 {
        Seq::empty()
    } else {
        let prev = sorted_distinct(s.drop_last());
        if prev.contains(s.last()) {
            prev
        } else {
            sorted_insert(prev, s.last())
        }
    }
}

/// Every name is in order with every later one.
pub open spec fn is_sorted(s: Seq<Seq<char>>) -> bool {
    forall|i: int, j: int| 0 <= i < j < s.len() ==> lex_le(#[trigger] s[i], #[trigger] s[j])
}

/// Every name comes strictly before every later one: in order, none twice.
pub open spec fn strictly_sorted(s: Seq<Seq<char>>) -> bool {
    forall|i: int, j: int| 0 <= i < j < s.len() ==> lex_lt(#[trigger] s[i], #[trigger] s[j])
}

proof fn lemma_lex_le_trans(a: Seq<char>, b: Seq<char>, c: Seq<char>)
    requires
        lex_le(a, b),
        lex_le(b, c),
    ensures
        lex_le(a, c),
{
    if a != b && b != c {
        lemma_lex_trans(a, b, c);
    }
}

/// What `sorted_insert` holds: the names it was given and `x`, once more.
proof fn lemma_insert_holds(s: Seq<Seq<char>>, x: Seq<char>)
    ensures
        sorted_insert(s, x).len() == s.len() + 1,
        sorted_insert(s, x).to_multiset() =~= s.to_multiset().insert(x),
        forall|e: Seq<char>| #[trigger] sorted_insert(s, x).contains(e) <==> (s.contains(e) || e == x),
    decreases s.len(),
{
    broadcast use vstd::seq_lib::group_to_multiset_ensures, vstd::multiset::group_multiset_axioms;
    let r = sorted_insert(s, x);
    let one = Seq::<Seq<char>>::empty().push(x);
    assert(one =~= seq![x]);
    assert(Seq::<Seq<char>>::empty().to_multiset() =~= vstd::multiset::Multiset::empty());
    if s.len() == 0 {
        assert(r =~= one);
        assert forall|e: Seq<char>| #[trigger] r.contains(e) <==> (s.contains(e) || e == x) by {
            if e == x {
                assert(r[0] == x);
            }
        }
    } else if lex_le(x, s[0]) {
        assert(r =~= one + s);
        vstd::seq_lib::lemma_multiset_commutative(one, s);
        assert(r.drop_first() =~= s);
        assert(r[0] == x);
        assert forall|e: Seq<char>| #[trigger] r.contains(e) <==> (s.contains(e) || e == x) by {
            if s.contains(e) {
                let k = choose|k: int| 0 <= k < s.len() && s[k] == e;
                assert(r[k + 1] == e);
            }
            if r.contains(e) && e != x {
                let k = choose|k: int| 0 <= k < r.len() && r[k] == e;
                assert(s[k - 1] == e);
            }
        }
    } else {
        let rest = s.drop_first();
        lemma_insert_holds(rest, x);
        let t = sorted_insert(rest, x);
        let head = Seq::<Seq<char>>::empty().push(s[0]);
        assert(r =~= head + t);
        assert(s =~= head + rest);
        vstd::seq_lib::lemma_multiset_commutative(head, t);
        vstd::seq_lib::lemma_multiset_commutative(head, rest);
        assert(r.drop_first() =~= t);
        assert(r[0] == s[0]);
        assert(s.drop_first() =~= rest);
        assert forall|e: Seq<char>| #[trigger] r.contains(e) <==> (s.contains(e) || e == x) by {
            if s.contains(e) {
                let k = choose|k: int| 0 <= k < s.len() && s[k] == e;
                if k > 0 {
                    assert(rest[k - 1] == e);
                    assert(t.contains(e));
                    let m = choose|m: int| 0 <= m < t.len() && t[m] == e;
                    assert(r[m + 1] == e);
                }
            }
            if e == x {
                assert(t.contains(x));
                let m = choose|m: int| 0 <= m < t.len() && t[m] == x;
                assert(r[m + 1] == x);
            }
            if r.contains(e) {
                let k = choose|k: int| 0 <= k < r.len() && r[k] == e;
                if k > 0 {
                    assert(t[k - 1] == e);
                    assert(t.contains(e));
                    if rest.contains(e) {
                        let m = choose|m: int| 0 <= m < rest.len() && rest[m] == e;
                        assert(s[m + 1] == e);
                    }
                }
            }
        }
    }
}

/// Inserting into names in order keeps them in order; into names strictly
/// in order, a name not among them keeps them strictly in order.
proof fn lemma_insert_sorted(s: Seq<Seq<char>>, x: Seq<char>)
    ensures
        is_sorted(s) ==> is_sorted(sorted_insert(s, x)),
        strictly_sorted(s) && !s.contains(x) ==> strictly_sorted(sorted_insert(s, x)),
    decreases s.len(),
{
    lemma_insert_holds(s, x);
    let r = sorted_insert(s, x);
    if s.len() > 0 {
        if lex_le(x, s[0]) {
            assert(r[0] == x);
            assert forall|j: int| 1 <= j < r.len() implies r[j] == s[j - 1] by {}
            if is_sorted(s) {
                assert forall|i: int, j: int| 0 <= i < j < r.len() implies lex_le(#[trigger] r[i], #[trigger] r[j]) by {
                    if i == 0 {
                        if j > 1 {
                            lemma_lex_le_trans(x, s[0], s[j - 1]);
                        }
                    } else {
                        assert(lex_le(s[i - 1], s[j - 1]));
                    }
                }
            }
            if strictly_sorted(s) && !s.contains(x) {
                assert(x != s[0]);
                assert forall|i: int, j: int| 0 <= i < j < r.len() implies lex_lt(#[trigger] r[i], #[trigger] r[j]) by {
                    if i == 0 {
                        if j > 1 {
                            lemma_lex_trans(x, s[0], s[j - 1]);
                        }
                    } else {
                        assert(lex_lt(s[i - 1], s[j - 1]));
                    }
                }
            }
        } else {
            let rest = s.drop_first();
            lemma_insert_sorted(rest, x);
            lemma_insert_holds(rest, x);
            let t = sorted_insert(rest, x);
            lemma_lex_total(x, s[0]);
            assert(lex_lt(s[0], x));
            assert(r[0] == s[0]);
            assert forall|j: int| 1 <= j < r.len() implies r[j] == t[j - 1] by {}
            if is_sorted(s) {
                assert(is_sorted(rest)) by {
                    assert forall|i: int, j: int| 0 <= i < j < rest.len() implies lex_le(#[trigger] rest[i], #[trigger] rest[j]) by {
                        assert(lex_le(s[i + 1], s[j + 1]));
                    }
                }
                assert forall|i: int, j: int| 0 <= i < j < r.len() implies lex_le(#[trigger] r[i], #[trigger] r[j]) by {
                    if i == 0 {
                        let e = t[j - 1];
                        assert(t.contains(e));
                        if e != x {
                            assert(rest.contains(e));
                            let m = choose|m: int| 0 <= m < rest.len() && rest[m] == e;
                            assert(lex_le(s[0], s[m + 1]));
                        }
                    } else {
                        assert(lex_le(t[i - 1], t[j - 1]));
                    }
                }
            }
            if strictly_sorted(s) && !s.contains(x) {
                assert(strictly_sorted(rest)) by {
                    assert forall|i: int, j: int| 0 <= i < j < rest.len() implies lex_lt(#[trigger] rest[i], #[trigger] rest[j]) by {
                        assert(lex_lt(s[i + 1], s[j + 1]));
                    }
                }
                assert(!rest.contains(x)) by {
                    if rest.contains(x) {
                        let m = choose|m: int| 0 <= m < rest.len() && rest[m] == x;
                        assert(s[m + 1] == x);
                    }
                }
                assert forall|i: int, j: int| 0 <= i < j < r.len() implies lex_lt(#[trigger] r[i], #[trigger] r[j]) by {
                    if i == 0 {
                        let e = t[j - 1];
                        assert(t.contains(e));
                        if e != x {
                            assert(rest.contains(e));
                            let m = choose|m: int| 0 <= m < rest.len() && rest[m] == e;
                            assert(lex_lt(s[0], s[m + 1]));
                        }
                    } else {
                        assert(lex_lt(t[i - 1], t[j - 1]));
                    }
                }
            }
        }
    }
}

/// Sorting puts the names in order and keeps every one of them, as often
/// as it was given.
pub proof fn law_sorted_orders_and_keeps(s: Seq<Seq<char>>)
    ensures
        is_sorted(sorted(s)),
        sorted(s).to_multiset() == s.to_multiset(),
    decreases s.len(),
{
    broadcast use vstd::seq_lib::group_to_multiset_ensures;
    if s.len() > 0 {
        let p = s.drop_last();
        law_sorted_orders_and_keeps(p);
        lemma_insert_sorted(sorted(p), s.last());
        lemma_insert_holds(sorted(p), s.last());
        assert(p.push(s.last()) =~= s);
    }
}

/// With duplicates dropped, each name comes out once, strictly in order, and
/// exactly the names given come out.
pub proof fn law_sorted_distinct_orders_each_once(s: Seq<Seq<char>>)
    ensures
        strictly_sorted(sorted_distinct(s)),
        forall|e: Seq<char>| #[trigger] sorted_distinct(s).contains(e) <==> s.contains(e),
    decreases s.len(),
{
    if s.len() > 0 {
        let p = s.drop_last();
        law_sorted_distinct_orders_each_once(p);
        let prev = sorted_distinct(p);
        lemma_insert_sorted(prev, s.last());
        lemma_insert_holds(prev, s.last());
        assert forall|e: Seq<char>| #[trigger] sorted_distinct(s).contains(e) <==> s.contains(e) by {
            if s.contains(e) {
                let k = choose|k: int| 0 <= k < s.len() && s[k] == e;
                if k < s.len() - 1 {
                    assert(p[k] == e);
                    assert(p.contains(e));
                }
            }
            if p.contains(e) {
                let k = choose|k: int| 0 <= k < p.len() && p[k] == e;
                assert(s[k] == e);
            }
        }
    }
}

/// The characters of a string.
fn chars_of(s: &str) -> (r: Vec<char>)
    ensures
        r@ == s@,
{
    let mut r: Vec<char> = Vec::new();
    for c in it: s.chars()
        invariant
            it.seq() == s@,
            r@ == s@.take(it.index() as int),
    {
        proof {
            assert(s@.take(it.index() + 1) =~= s@.take(it.index() as int).push(c));
        }
        r.push(c);
    }
    proof {
        assert(s@.take(s@.len() as int) =~= s@);
    }
    r
}

/// Whether `a` comes before `b`.
pub fn less(a: &str, b: &str) -> (r: bool)
    ensures
        r == lex_lt(a@, b@),
{
    let x = chars_of(a);
    let y = chars_of(b);
    let mut i: usize = 0;
    proof {
        assert(a@.skip(0) =~= a@);
        assert(b@.skip(0) =~= b@);
    }
    while i < x.len() && i < y.len() && x[i] == y[i]
        invariant
            i <= x@.len(),
            i <= y@.len(),
            x@ == a@,
            y@ == b@,
            lex_lt(a@, b@) == lex_lt(a@.skip(i as int), b@.skip(i as int)),
        decreases x@.len() - i,
    {
        proof {
            assert(a@.skip(i as int).drop_first() =~= a@.skip(i + 1));
            assert(b@.skip(i as int).drop_first() =~= b@.skip(i + 1));
        }
        i = i + 1;
    }
    if i == x.len() {
        i < y.len()
    } else if i == y.len() {
        false
    } else {
        x[i] < y[i]
    }
}

/// Inserts `x` where `sorted_insert` puts it.
fn insert_sorted(v: &mut Vec<String>, x: String)
    ensures
        crate::ir_export::names(final(v)@) == sorted_insert(crate::ir_export::names(old(v)@), x@),
{
    let ghost s = crate::ir_export::names(v@);
    let mut i: usize = 0;
    proof {
        assert(s.skip(0) =~= s);
        assert(s.take(0) + sorted_insert(s, x@) =~= sorted_insert(s, x@));
    }
    while i < v.len() && less(v[i].as_str(), x.as_str())
        invariant
            i <= v@.len(),
            s == crate::ir_export::names(v@),
            sorted_insert(s, x@) == s.take(i as int) + sorted_insert(s.skip(i as int), x@),
        decreases v@.len() - i,
    {
        proof {
            let t = s.skip(i as int);
            assert(t[0] == v@[i as int]@);
            lemma_lex_total(t[0], x@);
            assert(!lex_le(x@, t[0]));
            assert(t.drop_first() =~= s.skip(i + 1));
            assert(s.take(i + 1) =~= s.take(i as int) + seq![t[0]]);
        }
        i = i + 1;
    }
    proof {
        let t = s.skip(i as int);
        if i < v@.len() {
            assert(t[0] == v@[i as int]@);
            lemma_lex_total(t[0], x@);
        }
    }
    let ghost xv = x@;
    v.insert(i, x);
    proof {
        let t = s.skip(i as int);
        assert(crate::ir_export::names(v@) =~= s.take(i as int) + (seq![xv] + t));
        if i < s.len() {
            assert(sorted_insert(t, xv) == seq![xv] + t);
        } else {
            assert(t.len() == 0);
        }
        assert(s.take(i as int) + sorted_insert(t, xv) =~= crate::ir_export::names(v@));
    }
}

/// Whether `v` holds a string with the text of `x`.
fn holds(v: &Vec<String>, x: &String) -> (r: bool)
    ensures
        r == crate::ir_export::names(v@).contains(x@),
{
    let mut i: usize = 0;
    while i < v.len()
        invariant
            i <= v@.len(),
            forall|j: int| 0 <= j < i ==> v@[j]@ != x@,
        decreases v@.len() - i,
    {
        if v[i] == *x {
            proof {
                assert(crate::ir_export::names(v@)[i as int] == x@);
            }
            return true;
        }
        i = i + 1;
    }
    proof {
        if crate::ir_export::names(v@).contains(x@) {
            let j = choose|j: int| 0 <= j < v@.len() && crate::ir_export::names(v@)[j] == x@;
            assert(v@[j]@ == x@);
        }
    }
    false
}

/// The names sorted, duplicates kept.
pub fn sort_names(names: &Vec<String>) -> (r: Vec<String>)
    ensures
        crate::ir_export::names(r@) == sorted(crate::ir_export::names(names@)),
{
    let ghost n = crate::ir_export::names(names@);
    let mut r: Vec<String> = Vec::new();
    let mut i: usize = 0;
    while i < names.len()
        invariant
            i <= names@.len(),
            n == crate::ir_export::names(names@),
            crate::ir_export::names(r@) == sorted(n.take(i as int)),
        decreases names@.len() - i,
    {
        proof {
            assert(n.take(i + 1).drop_last() =~= n.take(i as int));
            assert(n.take(i + 1).last() == names@[i as int]@);
        }
        insert_sorted(&mut r, names[i].clone());
        i = i + 1;
    }
    proof {
        assert(n.take(i as int) =~= n);
    }
    r
}

/// The names sorted, each once.
pub fn sort_distinct(names: &Vec<String>) -> (r: Vec<String>)
    ensures
        crate::ir_export::names(r@) == sorted_distinct(crate::ir_export::names(names@)),
{
    let ghost n = crate::ir_export::names(names@);
    let mut r: Vec<String> = Vec::new();
    let mut i: usize = 0;
    while i < names.len()
        invariant
            i <= names@.len(),
            n == crate::ir_export::names(names@),
            crate::ir_export::names(r@) == sorted_distinct(n.take(i as int)),
        decreases names@.len() - i,
    {
        proof {
            assert(n.take(i + 1).drop_last() =~= n.take(i as int));
            assert(n.take(i + 1).last() == names@[i as int]@);
        }
        if !holds(&r, &names[i]) {
            insert_sorted(&mut r, names[i].clone());
        }
        i = i + 1;
    }
    proof {
        assert(n.take(i as int) =~= n);
    }
    r
}

} // verus!
