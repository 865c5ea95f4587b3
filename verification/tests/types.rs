use ruddy::types::{mutation_effect, Atom, EffectId, FixedInt, FixedLiteral, Formula, Prim};

const FIXED: [FixedInt; 8] = [
    FixedInt::Nat8,
    FixedInt::Nat16,
    FixedInt::Nat32,
    FixedInt::Nat64,
    FixedInt::Int8,
    FixedInt::Int16,
    FixedInt::Int32,
    FixedInt::Int64,
];

#[test]
fn fixed_int_spellings() {
    let names: Vec<&str> = FIXED.iter().map(|k| k.name()).collect();
    assert_eq!(names, vec!["Nat8", "Nat16", "Nat32", "Nat64", "Int8", "Int16", "Int32", "Int64"]);
    let suffixes: Vec<&str> = FIXED.iter().map(|k| k.suffix()).collect();
    assert_eq!(suffixes, vec!["n8", "n16", "n32", "n64", "i8", "i16", "i32", "i64"]);
}

#[test]
fn fixed_int_bounds() {
    assert_eq!(FixedInt::Nat8.bits(), 8);
    assert_eq!(FixedInt::Int64.bits(), 64);
    assert!(!FixedInt::Nat32.signed());
    assert!(FixedInt::Int16.signed());
    assert_eq!(FixedInt::Nat8.min(), 0);
    assert_eq!(FixedInt::Nat8.max(), 255);
    assert_eq!(FixedInt::Int8.min(), -128);
    assert_eq!(FixedInt::Int8.max(), 127);
    assert_eq!(FixedInt::Nat64.max(), u64::MAX as i128);
    assert_eq!(FixedInt::Int64.min(), i64::MIN as i128);
    assert_eq!(FixedInt::Int32.max(), i32::MAX as i128);
}

#[test]
fn fixed_literals_are_range_checked() {
    let ok = FixedLiteral::new(FixedInt::Int8, -128).expect("in range");
    assert_eq!(ok.kind(), FixedInt::Int8);
    assert_eq!(ok.value(), -128);
    assert!(FixedLiteral::new(FixedInt::Int8, 128).is_none());
    assert!(FixedLiteral::new(FixedInt::Nat16, -1).is_none());
    assert!(FixedLiteral::new(FixedInt::Nat16, 65535).is_some());
}

#[test]
fn prim_names_round_trip() {
    let mut all = vec![Prim::Nat, Prim::Int, Prim::Real, Prim::String, Prim::Bool, Prim::Any, Prim::ForeignValue];
    all.extend(FIXED.iter().map(|k| Prim::Fixed(*k)));
    for prim in all {
        assert_eq!(Prim::from_name(prim.name()), Some(prim));
    }
    assert_eq!(Prim::Bool.name(), "Bool");
    assert_eq!(Prim::Fixed(FixedInt::Nat8).name(), "Nat8");
    assert_eq!(Prim::from_name("Boolean"), None);
    assert_eq!(Prim::from_name(""), None);
}

#[test]
fn formulas_evaluate() {
    let a = Formula::var(1);
    let b = Formula::var(2);
    let only_a = |atom: Atom| atom == Atom::Var(1);
    assert!(a.clone().eval(&only_a));
    assert!(!b.clone().eval(&only_a));
    assert!(!a.clone().and(b.clone()).eval(&only_a));
    assert!(a.clone().or(b.clone()).eval(&only_a));
    assert!(!a.clone().not().eval(&only_a));
    assert!(!a.clone().iff(b.clone()).eval(&only_a));
    assert!(a.clone().xor(b.clone()).eval(&only_a));
    assert!(Formula::all(vec![]).eval(&only_a));
    assert!(!Formula::any(vec![]).eval(&only_a));
    assert!(Formula::any(vec![b.clone(), a.clone()]).eval(&only_a));
    assert!(Formula::True.is_true());
    assert!(!a.is_true());
}

#[test]
fn formula_atoms_and_renaming() {
    let f = Formula::var(1).and(Formula::bound(0));
    let mut atoms = Vec::new();
    f.atoms(&mut atoms);
    assert!(atoms.contains(&Atom::Var(1)));
    assert!(atoms.contains(&Atom::Bound(0)));
    let renamed = f.rename(&|index: u32| Formula::var(index + 10));
    let mut after = Vec::new();
    renamed.atoms(&mut after);
    assert!(after.contains(&Atom::Var(11)));
    assert!(after.contains(&Atom::Bound(0)));
    assert!(!after.contains(&Atom::Var(1)));
}

#[test]
fn row_keys_are_length_prefixed() {
    let effect = EffectId::structural("io".to_string(), "read;".to_string());
    let key = effect.row_key();
    assert_eq!(key, "\u{1e}e2:io5:read;");
    assert_eq!(EffectId::parse_canonical_row_key(&key), Some(("io", "read;")));
    assert_eq!(EffectId::parse_row_key(&key), Some(("io", "read;")));
    assert_eq!(effect.label_key(), key);
    assert_eq!(effect.name(), "io");
}

#[test]
fn row_keys_with_separators_read_back() {
    let effect = EffectId::structural("a\u{1f}b".to_string(), "c:d".to_string());
    let key = effect.row_key();
    assert_eq!(EffectId::parse_canonical_row_key(&key), Some(("a\u{1f}b", "c:d")));
}

#[test]
fn legacy_row_keys() {
    assert_eq!(EffectId::parse_row_key("io\u{1f}read"), Some(("io", "read")));
    assert_eq!(EffectId::parse_canonical_row_key("io\u{1f}read"), None);
    assert_eq!(EffectId::parse_row_key("plain"), None);
    assert_eq!(EffectId::parse_canonical_row_key("\u{1e}e3:io"), None);
    assert_eq!(EffectId::parse_canonical_row_key("\u{1e}e2:io0:x"), None);
}

#[test]
fn mutation_is_a_builtin_effect() {
    let effect = mutation_effect();
    assert_eq!(effect.name(), "mut");
    assert_eq!(effect.row_key(), "\u{1e}e3:mut19:0#13:<builtin:mut>;");
}

#[test]
fn pending_effects_key_by_symbol_debug_text() {
    let bundle = ruddy::symbol::Bundle::new("demo", semver::Version::new(1, 0, 0)).expect("valid");
    let first = ruddy::symbol::Symbol::at_path(bundle.hash(), "Eone");
    let second = ruddy::symbol::Symbol::at_path(bundle.hash(), "Etwo");
    let key = EffectId::Pending(first).label_key();
    assert_eq!(key, format!("\u{1e}p{first:?}"));
    assert_ne!(key, EffectId::Pending(second).label_key());
}
