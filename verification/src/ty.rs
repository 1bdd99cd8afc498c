// Types as the IR sees them: a width, a signedness, and for the aggregates
// what they are made of.
//
// Every value in the IR carries one of these, which is what lets the backend
// fold every width to a literal.

use vstd::prelude::*;
use crate::text::{dec, push_decimal};

verus! {

/// How a memory is built.
#[derive(Debug, Clone, Copy, PartialEq, Eq, Structural)]
pub enum MemKind {
    /// Distributed RAM: combinational reads.
    LutRam,
    /// Block RAM: synchronous reads through a port.
    BlockRam,
    /// Block RAM split into banks.
    BankedRam,
}

impl MemKind {
    /// The spelling a declaration uses.
    pub fn display(&self) -> (s: String)
        ensures
            s@ == mem_kind_text(*self),
    {
        match self {
            MemKind::LutRam => String::from_str("lutram"),
            MemKind::BlockRam => String::from_str("bram"),
            MemKind::BankedRam => String::from_str("banked"),
        }
    }
}

pub open spec fn mem_kind_text(k: MemKind) -> Seq<char> {
    match k {
        MemKind::LutRam => "lutram"@,
        MemKind::BlockRam => "bram"@,
        MemKind::BankedRam => "banked"@,
    }
}

#[derive(Debug)]
pub enum Ty {
    UInt(u32),
    SInt(u32),
    /// `n` elements, element 0 in the low bits.
    Array(Box<Ty>, u32),
    Struct { name: String, width: u32 },
    /// A tagged union: tag and payload, `width` bits in all.
    Enum { name: String, width: u32 },
    Mem { elem: Box<Ty>, len: u32, kind: MemKind },
}

/// `2^n`.
pub open spec fn two_to(n: nat) -> nat
    decreases n,
{
    if n == 0 {
        1
    } else {
        2 * two_to((n - 1) as nat)
    }
}

/// How many bits a value of type `t` occupies.
pub open spec fn width(t: Ty) -> nat
    decreases t,
{
    match t {
        Ty::UInt(w) => w as nat,
        Ty::SInt(w) => w as nat,
        Ty::Array(e, n) => if n == 0 {
            0
        } else {
            width(*e) * (n as nat)
        },
        Ty::Struct { width, .. } => width as nat,
        Ty::Enum { width, .. } => width as nat,
        Ty::Mem { elem, len, .. } => if len == 0 {
            0
        } else {
            width(*elem) * (len as nat)
        },
    }
}

/// A one-bit unsigned value: a condition.
pub open spec fn bool_ty() -> Ty {
    Ty::UInt(1)
}

/// The spelling of a type in a diagnostic or a dump.
pub open spec fn ty_text(t: Ty) -> Seq<char>
    decreases t,
{
    match t {
        Ty::UInt(w) => seq!['i'] + dec(w as nat),
        Ty::SInt(w) => seq!['s'] + dec(w as nat),
        Ty::Array(e, n) => seq!['['] + ty_text(*e) + "; "@ + dec(n as nat) + seq![']'],
        Ty::Struct { name, .. } => name@,
        Ty::Enum { name, .. } => name@,
        Ty::Mem { elem, len, kind } => mem_kind_text(kind) + " ["@ + ty_text(*elem) + "; "@ + dec(
            len as nat,
        ) + seq![']'],
    }
}

/// Two types are the same type: the same shape, and names with the same text.
pub open spec fn same_ty(a: Ty, b: Ty) -> bool
    decreases a,
{
    match (a, b) {
        (Ty::UInt(x), Ty::UInt(y)) => x == y,
        (Ty::SInt(x), Ty::SInt(y)) => x == y,
        (Ty::Array(x, n), Ty::Array(y, m)) => n == m && same_ty(*x, *y),
        (Ty::Struct { name: x, width: v }, Ty::Struct { name: y, width: w }) => v == w && x@ == y@,
        (Ty::Enum { name: x, width: v }, Ty::Enum { name: y, width: w }) => v == w && x@ == y@,
        (Ty::Mem { elem: x, len: n, kind: j }, Ty::Mem { elem: y, len: m, kind: k }) => n == m && j
            == k && same_ty(*x, *y),
        _ => false,
    }
}

/// The smallest number of bits, at least one, that holds `v`.
pub open spec fn bits_needed(v: nat) -> nat
    decreases v,
{
    if v < 2 {
        1
    } else {
        1 + bits_needed(v / 2)
    }
}

pub proof fn lemma_two_to_grows(n: nat)
    ensures
        two_to(n) >= 1,
        two_to(n + 1) == 2 * two_to(n),
    decreases n,
{
    assert(two_to(n + 1) == 2 * two_to(n));
    if n > 0 {
        lemma_two_to_grows((n - 1) as nat);
    }
}

/// `bits_needed(v)` is the place of `v`'s highest bit, plus one.
proof fn lemma_bits_needed(v: nat)
    ensures
        v < two_to(bits_needed(v)),
        bits_needed(v) == 1 || two_to((bits_needed(v) - 1) as nat) <= v,
        bits_needed(v) >= 1,
    decreases v,
{
    reveal_with_fuel(two_to, 2);
    if v >= 2 {
        lemma_bits_needed(v / 2);
        lemma_two_to_grows(bits_needed(v / 2));
        let b = bits_needed(v / 2);
        if b > 1 {
            lemma_two_to_grows((b - 1) as nat);
        }
    }
}

/// If `2^(w-1) <= v < 2^w` then `w` is `bits_needed(v)`.
proof fn lemma_bits_needed_unique(v: nat, w: nat)
    requires
        w >= 1,
        v < two_to(w),
        w == 1 || two_to((w - 1) as nat) <= v,
    ensures
        bits_needed(v) == w,
    decreases w,
{
    reveal_with_fuel(two_to, 2);
    if w == 1 {
        assert(v < 2);
    } else {
        lemma_two_to_grows((w - 1) as nat);
        assert(v >= 2) by {
            lemma_two_to_grows((w - 1) as nat);
            if w - 1 > 0 {
                lemma_two_to_grows((w - 2) as nat);
            }
        }
        if w - 1 > 1 {
            lemma_two_to_grows((w - 2) as nat);
        }
        lemma_bits_needed_unique(v / 2, (w - 1) as nat);
    }
}

/// The number of bits, at least one, that holds `v`.
pub fn bits_for(v: u128) -> (w: u32)
    ensures
        w as nat == bits_needed(v as nat),
        1 <= w <= 128,
{
    let mut w: u32 = 1;
    let mut lim: u128 = 2;
    proof { reveal_with_fuel(two_to, 2); }
    while w < 128 && v >= lim
        invariant
            1 <= w <= 128,
            w < 128 ==> lim as nat == two_to(w as nat),
            w == 1 || two_to((w - 1) as nat) <= v,
        decreases 128 - w,
    {
        proof {
            lemma_two_to_grows(w as nat);
        }
        if w == 127 {
            w = 128;
        } else {
            assert(two_to((w + 1) as nat) <= u128::MAX) by {
                lemma_two_to_pow_bound((w + 1) as nat);
            }
            lim = lim * 2;
            w = w + 1;
        }
    }
    proof {
        if w == 128 {
            lemma_two_to_pow_bound(127);
            lemma_two_to_grows(127);
            assert(v < two_to(128));
        }
        lemma_bits_needed_unique(v as nat, w as nat);
    }
    w
}

proof fn lemma_two_to_add(a: nat, b: nat)
    ensures
        two_to(a + b) == two_to(a) * two_to(b),
    decreases a,
{
    if a == 0 {
        assert(two_to(0) == 1);
        assert(a + b == b);
    } else {
        lemma_two_to_add((a - 1) as nat, b);
        let p = two_to((a - 1) as nat);
        let q = two_to(b);
        assert((a - 1 + b) as nat + 1 == a + b);
        lemma_two_to_grows((a - 1 + b) as nat);
        lemma_two_to_grows((a - 1) as nat);
        assert(two_to(a + b) == 2 * (p * q));
        assert(two_to(a) == 2 * p);
        assert(2 * (p * q) == (2 * p) * q) by (nonlinear_arith);
    }
}

proof fn lemma_two_to_pow_bound(n: nat)
    requires
        n <= 127,
    ensures
        two_to(n) <= two_to(127),
        two_to(127) * 2 == u128::MAX + 1,
        two_to(128) == u128::MAX + 1,
    decreases 127 - n,
{
    if n < 127 {
        lemma_two_to_grows(n);
        lemma_two_to_pow_bound(n + 1);
    }
    assert(two_to(16) == 0x1_0000) by {
        reveal_with_fuel(two_to, 17);
    }
    lemma_two_to_add(16, 16);
    assert(two_to(32) == 0x1_0000_0000);
    lemma_two_to_add(32, 32);
    assert(two_to(64) == 0x1_0000_0000_0000_0000);
    lemma_two_to_add(64, 64);
    assert(two_to(128) == 0x1_0000_0000_0000_0000_0000_0000_0000_0000);
    lemma_two_to_grows(127);
}

/// Whether the literal `k` can be a value of `t` without losing bits.
pub open spec fn fits(k: nat, t: Ty) -> bool {
    match t {
        Ty::SInt(w) => w >= 1 && (w > 128 || k < two_to((w - 1) as nat)),
        _ => width(t) >= 128 || k < two_to(width(t)),
    }
}

/// Whether a literal fits a type.
pub fn literal_fits(k: u128, t: &Ty) -> (r: bool)
    requires
        width(*t) <= u32::MAX,
    ensures
        r == fits(k as nat, *t),
{
    let (bits, signed) = match t {
        Ty::SInt(w) => (*w, true),
        _ => (t.bit_width(), false),
    };
    if signed {
        if bits == 0 {
            return false;
        }
        if bits > 128 {
            return true;
        }
        let need = bits_for(k);
        proof { lemma_bits_needed(k as nat); }
        // `k < 2^(bits-1)` exactly when `k` needs at most `bits - 1` bits,
        // except that zero needs one bit and fits anything.
        let r = k == 0 || need <= bits - 1;
        proof { lemma_fits_by_bits(k as nat, (bits - 1) as nat); }
        r
    } else {
        if bits >= 128 {
            return true;
        }
        let need = bits_for(k);
        proof { lemma_fits_by_bits(k as nat, bits as nat); }
        k == 0 || need <= bits
    }
}

/// `k < 2^b` exactly when `k` is zero and `b` positive, or `k` needs at most
/// `b` bits.
proof fn lemma_fits_by_bits(k: nat, b: nat)
    ensures
        (k < two_to(b)) == (k == 0 || bits_needed(k) <= b),
{
    lemma_bits_needed(k);
    lemma_two_to_grows(b);
    let n = bits_needed(k);
    if n <= b {
        lemma_two_to_monotone(n, b);
    } else if k > 0 {
        lemma_two_to_monotone(b, (n - 1) as nat);
    }
}

pub proof fn lemma_two_to_monotone(a: nat, b: nat)
    requires
        a <= b,
    ensures
        two_to(a) <= two_to(b),
    decreases b - a,
{
    if a < b {
        lemma_two_to_grows((b - 1) as nat);
        lemma_two_to_monotone(a, (b - 1) as nat);
    }
}

impl Clone for Ty {
    fn clone(&self) -> (r: Self)
        ensures
            r == *self,
        decreases self,
    {
        match self {
            Ty::UInt(w) => Ty::UInt(*w),
            Ty::SInt(w) => Ty::SInt(*w),
            Ty::Array(e, n) => Ty::Array(Box::new((**e).clone()), *n),
            Ty::Struct { name, width } => Ty::Struct { name: name.clone(), width: *width },
            Ty::Enum { name, width } => Ty::Enum { name: name.clone(), width: *width },
            Ty::Mem { elem, len, kind } => Ty::Mem {
                elem: Box::new((**elem).clone()),
                len: *len,
                kind: *kind,
            },
        }
    }
}

impl Ty {
    /// How many bits a value of this type occupies.
    pub fn bit_width(&self) -> (w: u32)
        requires
            width(*self) <= u32::MAX,
        ensures
            w as nat == width(*self),
        decreases self,
    {
        match self {
            Ty::UInt(w) => *w,
            Ty::SInt(w) => *w,
            Ty::Array(e, n) => {
                if *n == 0 {
                    0
                } else {
                    proof {
                        assert(width(**e) <= width(**e) * (*n as nat)) by (nonlinear_arith)
                            requires
                                *n >= 1,
                        ;
                    }
                    let ew = (**e).bit_width();
                    proof {
                        assert(ew * (*n as nat) <= u32::MAX);
                    }
                    ew * *n
                }
            },
            Ty::Struct { width, .. } => *width,
            Ty::Enum { width, .. } => *width,
            Ty::Mem { elem, len, .. } => {
                if *len == 0 {
                    0
                } else {
                    proof {
                        assert(width(**elem) <= width(**elem) * (*len as nat)) by (nonlinear_arith)
                            requires
                                *len >= 1,
                        ;
                    }
                    let ew = (**elem).bit_width();
                    ew * *len
                }
            },
        }
    }

    pub fn is_signed(&self) -> (r: bool)
        ensures
            r == (*self is SInt),
    {
        match self {
            Ty::SInt(_) => true,
            _ => false,
        }
    }

    pub fn is_memory(&self) -> (r: bool)
        ensures
            r == (*self is Mem),
    {
        match self {
            Ty::Mem { .. } => true,
            _ => false,
        }
    }

    /// Whether this is the one-bit unsigned type a condition has.
    pub fn is_bool(&self) -> (r: bool)
        ensures
            r == (*self == bool_ty()),
    {
        match self {
            Ty::UInt(w) => *w == 1,
            _ => false,
        }
    }

    /// The same signedness at another width.
    pub fn with_width(&self, to: u32) -> (r: Ty)
        ensures
            r == (if *self is SInt {
                Ty::SInt(to)
            } else {
                Ty::UInt(to)
            }),
    {
        if self.is_signed() {
            Ty::SInt(to)
        } else {
            Ty::UInt(to)
        }
    }

    /// Structural equality, names compared by their text.
    pub fn same(&self, other: &Ty) -> (r: bool)
        ensures
            r == same_ty(*self, *other),
        decreases self,
    {
        match (self, other) {
            (Ty::UInt(a), Ty::UInt(b)) => *a == *b,
            (Ty::SInt(a), Ty::SInt(b)) => *a == *b,
            (Ty::Array(a, n), Ty::Array(b, m)) => *n == *m && (**a).same(&**b),
            (Ty::Struct { name: a, width: x }, Ty::Struct { name: b, width: y }) => {
                *x == *y && a.eq(b)
            },
            (Ty::Enum { name: a, width: x }, Ty::Enum { name: b, width: y }) => {
                *x == *y && a.eq(b)
            },
            (Ty::Mem { elem: a, len: n, kind: j }, Ty::Mem { elem: b, len: m, kind: k }) => {
                *n == *m && *j == *k && (**a).same(&**b)
            },
            _ => false,
        }
    }

    /// The spelling of this type.
    pub fn display(&self) -> (s: String)
        ensures
            s@ == ty_text(*self),
        decreases self,
    {
        match self {
            Ty::UInt(w) => {
                let mut s = String::from_str("i");
                proof { reveal_strlit("i"); }
                push_decimal(&mut s, *w as u64);
                s
            },
            Ty::SInt(w) => {
                let mut s = String::from_str("s");
                proof { reveal_strlit("s"); }
                push_decimal(&mut s, *w as u64);
                s
            },
            Ty::Array(e, n) => {
                let mut s = String::from_str("[");
                proof { reveal_strlit("["); }
                let inner = (**e).display();
                s.append(inner.as_str());
                s.append("; ");
                push_decimal(&mut s, *n as u64);
                s.append("]");
                proof { reveal_strlit("]"); }
                s
            },
            Ty::Struct { name, .. } => name.clone(),
            Ty::Enum { name, .. } => name.clone(),
            Ty::Mem { elem, len, kind } => {
                let mut s = kind.display();
                s.append(" [");
                let inner = (**elem).display();
                s.append(inner.as_str());
                s.append("; ");
                push_decimal(&mut s, *len as u64);
                s.append("]");
                proof { reveal_strlit("]"); }
                s
            },
        }
    }
}

/// Every type is the same type as itself.
pub proof fn lemma_same_ty_refl(t: Ty)
    ensures
        same_ty(t, t),
    decreases t,
{
    match t {
        Ty::Array(e, _) => lemma_same_ty_refl(*e),
        Ty::Mem { elem, .. } => lemma_same_ty_refl(*elem),
        _ => {},
    }
}

/// The conversion that takes a value of type `have` to type `want`, as a
/// diagnostic's note words it.
pub open spec fn cast_hint_text(have: Ty, want: Ty) -> Seq<char> {
    if width(have) == width(want) {
        "convert with `@signed(x)` or `@unsigned(x)` to reach `"@ + ty_text(want) + "`"@
    } else if width(have) < width(want) {
        "widen with `"@ + (if have is SInt { "@sext"@ } else { "@zext"@ }) + "(x, "@ + dec(width(want)) + ")`"@
    } else {
        "narrow with `@trunc(x, "@ + dec(width(want)) + ")`"@
    }
}

/// The cast to write when a value of type `have` stands where `want` is
/// expected: a signedness change when only that differs, otherwise the
/// extension or truncation to the expected width.
pub fn cast_hint(have: &Ty, want: &Ty) -> (s: String)
    requires
        width(*have) <= u32::MAX,
        width(*want) <= u32::MAX,
    ensures
        s@ == cast_hint_text(*have, *want),
{
    let to = want.bit_width();
    if have.bit_width() == to {
        let mut s = String::from_str("convert with `@signed(x)` or `@unsigned(x)` to reach `");
        s.append(want.display().as_str());
        s.append("`");
        return s;
    }
    if have.bit_width() < to {
        let mut s = String::from_str("widen with `");
        s.append(if have.is_signed() { "@sext" } else { "@zext" });
        s.append("(x, ");
        push_decimal(&mut s, to as u64);
        s.append(")`");
        s
    } else {
        let mut s = String::from_str("narrow with `@trunc(x, ");
        push_decimal(&mut s, to as u64);
        s.append(")`");
        s
    }
}

/// `cast_hint`, for the stages that report a width mismatch of their own.
pub fn cast_hint_pub(have: &Ty, want: &Ty) -> (s: String)
    requires
        width(*have) <= u32::MAX,
        width(*want) <= u32::MAX,
    ensures
        s@ == cast_hint_text(*have, *want),
{
    cast_hint(have, want)
}

} // verus!
