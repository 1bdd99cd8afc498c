use ddl::env::{Binding, Env};
use ddl::ir::ValueId;
use ddl::sort::{less, sort_distinct, sort_names};
use ddl::text::{decimal, decimal_wide, push_decimal, push_decimal_wide, repeat_str};
use ddl::ty::{bits_for, cast_hint, literal_fits, MemKind, Ty};

fn arr(e: Ty, n: u32) -> Ty {
    Ty::Array(Box::new(e), n)
}

#[test]
fn widths_add_up_through_arrays_and_memories() {
    assert_eq!(Ty::UInt(7).bit_width(), 7);
    assert_eq!(Ty::SInt(12).bit_width(), 12);
    assert_eq!(arr(Ty::UInt(8), 4).bit_width(), 32);
    assert_eq!(arr(arr(Ty::SInt(3), 2), 5).bit_width(), 30);
    assert_eq!(arr(Ty::UInt(8), 0).bit_width(), 0);
    let m = Ty::Mem { elem: Box::new(Ty::UInt(16)), len: 64, kind: MemKind::BlockRam };
    assert_eq!(m.bit_width(), 1024);
    assert_eq!(Ty::Struct { name: "P".to_string(), width: 40 }.bit_width(), 40);
}

#[test]
fn types_spell_as_the_source_writes_them() {
    assert_eq!(Ty::UInt(8).display(), "i8");
    assert_eq!(Ty::SInt(5).display(), "s5");
    assert_eq!(arr(Ty::UInt(8), 4).display(), "[i8; 4]");
    let m = Ty::Mem { elem: Box::new(Ty::SInt(16)), len: 64, kind: MemKind::LutRam };
    assert_eq!(m.display(), "lutram [s16; 64]");
    assert_eq!(MemKind::BankedRam.display(), "banked");
    assert_eq!(MemKind::BlockRam.display(), "bram");
    assert_eq!(Ty::Enum { name: "Op".to_string(), width: 3 }.display(), "Op");
}

#[test]
fn kinds_of_types_are_told_apart() {
    assert!(Ty::SInt(4).is_signed());
    assert!(!Ty::UInt(4).is_signed());
    assert!(Ty::UInt(1).is_bool());
    assert!(!Ty::SInt(1).is_bool());
    assert!(!Ty::UInt(2).is_bool());
    let m = Ty::Mem { elem: Box::new(Ty::UInt(1)), len: 2, kind: MemKind::LutRam };
    assert!(m.is_memory());
    assert!(!Ty::UInt(2).is_memory());
    assert_eq!(Ty::SInt(4).with_width(9).display(), "s9");
    assert_eq!(arr(Ty::SInt(4), 2).with_width(9).display(), "i9");
}

#[test]
fn sameness_is_by_shape_and_name() {
    assert!(arr(Ty::UInt(8), 4).same(&arr(Ty::UInt(8), 4)));
    assert!(!arr(Ty::UInt(8), 4).same(&arr(Ty::SInt(8), 4)));
    assert!(!Ty::UInt(8).same(&Ty::SInt(8)));
    let a = Ty::Struct { name: "P".to_string(), width: 4 };
    let b = Ty::Struct { name: "Q".to_string(), width: 4 };
    assert!(a.same(&a.clone()));
    assert!(!a.same(&b));
}

#[test]
fn bits_for_counts_the_highest_bit() {
    assert_eq!(bits_for(0), 1);
    assert_eq!(bits_for(1), 1);
    assert_eq!(bits_for(2), 2);
    assert_eq!(bits_for(255), 8);
    assert_eq!(bits_for(256), 9);
    assert_eq!(bits_for(u128::MAX), 128);
}

#[test]
fn a_literal_fits_an_unsigned_or_a_signed_type_by_its_range() {
    assert!(literal_fits(255, &Ty::UInt(8)));
    assert!(!literal_fits(256, &Ty::UInt(8)));
    assert!(!literal_fits(300, &Ty::UInt(8)));
    // A signed type keeps its top bit for the sign.
    assert!(literal_fits(127, &Ty::SInt(8)));
    assert!(!literal_fits(128, &Ty::SInt(8)));
    assert!(literal_fits(u128::MAX, &Ty::UInt(128)));
    assert!(!literal_fits(0, &Ty::SInt(0)));
}

#[test]
fn the_cast_hint_names_the_cast_to_write() {
    assert_eq!(cast_hint(&Ty::UInt(5), &Ty::UInt(32)), "widen with `@zext(x, 32)`");
    assert_eq!(cast_hint(&Ty::SInt(5), &Ty::SInt(32)), "widen with `@sext(x, 32)`");
    assert_eq!(cast_hint(&Ty::UInt(32), &Ty::UInt(8)), "narrow with `@trunc(x, 8)`");
    assert_eq!(
        cast_hint(&Ty::UInt(8), &Ty::SInt(8)),
        "convert with `@signed(x)` or `@unsigned(x)` to reach `s8`"
    );
}

#[test]
fn numerals_are_plain_decimal() {
    assert_eq!(decimal(0), "0");
    assert_eq!(decimal(907), "907");
    assert_eq!(decimal(u64::MAX), u64::MAX.to_string());
    assert_eq!(decimal_wide(u128::MAX), u128::MAX.to_string());
    let mut s = "w".to_string();
    push_decimal(&mut s, 42);
    push_decimal_wide(&mut s, 10);
    assert_eq!(s, "w4210");
    assert_eq!(repeat_str("ab", 3), "ababab");
    assert_eq!(repeat_str("ab", 0), "");
}

#[test]
fn names_sort_by_character_and_shorter_first() {
    assert!(less("a", "b"));
    assert!(less("ab", "abc"));
    assert!(!less("abc", "ab"));
    assert!(!less("x", "x"));
    assert!(less("B", "a"));
    let v = vec!["zeta".to_string(), "alpha".to_string(), "mid".to_string(), "alpha".to_string()];
    assert_eq!(sort_names(&v), vec!["alpha", "alpha", "mid", "zeta"]);
    assert_eq!(sort_distinct(&v), vec!["alpha", "mid", "zeta"]);
}

#[test]
fn an_environment_reads_back_what_was_bound_last() {
    let mut e = Env::new();
    assert!(e.get("x").is_none());
    e.insert("x".to_string(), Binding::constant(ValueId(1), Ty::UInt(8)));
    e.insert("y".to_string(), Binding::variable(ValueId(2), Ty::SInt(4)));
    assert_eq!(e.get_value("x"), Some(ValueId(1)));
    assert!(!e.get("x").unwrap().is_mutable);
    assert!(e.get("y").unwrap().is_mutable);
    // Rebinding replaces; the other name is untouched.
    e.insert("x".to_string(), Binding::variable(ValueId(3), Ty::UInt(8)));
    assert_eq!(e.get_value("x"), Some(ValueId(3)));
    assert_eq!(e.get_value("y"), Some(ValueId(2)));
    e.remove("x");
    assert!(e.get("x").is_none());
    assert_eq!(e.get_value("y"), Some(ValueId(2)));
}
