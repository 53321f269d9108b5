use undovm::bc::{ADTVariant, ExpectedADT, Module, ModuleName, RawInstruction};
use undovm::context::build_context;
use undovm::program::{link, Instruction, LinkError};

fn names(parts: &[&str]) -> Vec<String> {
    let mut v = Vec::new();
    for p in parts {
        v.push(p.to_string());
    }
    v
}

fn bare_module(name: &[&str]) -> Module {
    Module {
        name: names(name),
        strings: Vec::new(),
        functions: Vec::new(),
        dependencies: Vec::new(),
        adts: Vec::new(),
        expected_adts: Vec::new(),
    }
}

fn pair_module() -> Module {
    let mut m = bare_module(&["Main"]);
    m.adts.push((
        "Pair".to_string(),
        vec![ADTVariant { name: "Pair".to_string(), elements: names(&["fst", "snd"]) }],
    ));
    m
}

#[test]
fn link_deterministic() {
    let mut m = pair_module();
    m.functions.push((
        "MAIN".to_string(),
        vec![RawInstruction::PushInt(1), RawInstruction::StoreLocal(0)],
    ));
    m.functions.push(("aux".to_string(), vec![RawInstruction::PushInt(2)]));
    let modules = vec![m];
    let (p1, c1) = link(&modules).unwrap();
    let (p2, c2) = link(&modules).unwrap();
    assert_eq!(p1, p2);
    assert_eq!(c1, c2);
}

#[test]
fn function_indices_sorted_by_name() {
    let mut m = bare_module(&["M"]);
    m.functions.push(("zeta".to_string(), vec![RawInstruction::PushInt(1)]));
    m.functions.push(("alpha".to_string(), vec![RawInstruction::PushInt(2)]));
    m.functions.push(("MAIN".to_string(), vec![]));
    let (program, context) = link(&vec![m]).unwrap();
    let midx = context.module_called(&names(&["M"])).unwrap();
    let a = context.module_fn_called(midx, "alpha").unwrap();
    let z = context.module_fn_called(midx, "zeta").unwrap();
    let main = context.module_fn_called(midx, "MAIN").unwrap();
    assert_eq!(main.0, 0);
    assert_eq!(a.0, 1);
    assert_eq!(z.0, 2);
    assert_eq!(program.len(), 3);
    assert_eq!(program.at(a), &vec![Instruction::PushInt(2)]);
    assert_eq!(program.at(z), &vec![Instruction::PushInt(1)]);
}

#[test]
fn missing_dependency_is_refused() {
    let mut m = bare_module(&["A"]);
    m.dependencies.push(names(&["B"]));
    let e = link(&vec![m]).unwrap_err();
    match e {
        LinkError::MissingDependency { dependency } => assert_eq!(dependency, names(&["B"])),
        other => panic!("unexpected error {:?}", other),
    }
}

#[test]
fn prelude_dependency_is_implicit() {
    let mut m = bare_module(&["A"]);
    m.dependencies.push(names(&["Prelude"]));
    assert!(link(&vec![m]).is_ok());
}

#[test]
fn dependency_on_supplied_module_is_accepted() {
    let mut a = bare_module(&["A"]);
    a.dependencies.push(names(&["B"]));
    let b = bare_module(&["B"]);
    assert!(link(&vec![a, b]).is_ok());
}

#[test]
fn matching_expected_adt_links() {
    let provider = pair_module();
    let mut client = bare_module(&["Client"]);
    client.expected_adts.push(ExpectedADT {
        module: names(&["Main"]),
        name: "Pair".to_string(),
        variants: vec![ADTVariant { name: "Pair".to_string(), elements: names(&["fst", "snd"]) }],
    });
    assert!(link(&vec![provider, client]).is_ok());
}

#[test]
fn expected_adt_unknown_module_is_refused() {
    let mut client = bare_module(&["Client"]);
    client.expected_adts.push(ExpectedADT {
        module: names(&["Nowhere"]),
        name: "Pair".to_string(),
        variants: Vec::new(),
    });
    let e = link(&vec![client]).unwrap_err();
    assert!(matches!(e, LinkError::ExpectedAdtUnknownModule { .. }));
}

#[test]
fn expected_adt_unknown_datatype_is_refused() {
    let provider = pair_module();
    let mut client = bare_module(&["Client"]);
    client.expected_adts.push(ExpectedADT {
        module: names(&["Main"]),
        name: "Triple".to_string(),
        variants: Vec::new(),
    });
    let e = link(&vec![provider, client]).unwrap_err();
    assert!(matches!(e, LinkError::ExpectedAdtUnknownAdt { .. }));
}

#[test]
fn adt_variant_set_mismatch_is_refused() {
    let provider = pair_module();
    let mut client = bare_module(&["Client"]);
    client.expected_adts.push(ExpectedADT {
        module: names(&["Main"]),
        name: "Pair".to_string(),
        variants: vec![ADTVariant { name: "Other".to_string(), elements: Vec::new() }],
    });
    let e = link(&vec![provider, client]).unwrap_err();
    assert!(matches!(e, LinkError::AdtVariantMismatch { .. }));
}

#[test]
fn adt_elements_mismatch_is_refused() {
    let provider = pair_module();
    let mut client = bare_module(&["Client"]);
    client.expected_adts.push(ExpectedADT {
        module: names(&["Main"]),
        name: "Pair".to_string(),
        variants: vec![ADTVariant { name: "Pair".to_string(), elements: names(&["a", "b"]) }],
    });
    let e = link(&vec![provider, client]).unwrap_err();
    assert!(matches!(e, LinkError::AdtElementsMismatch { .. }));
}

#[test]
fn unsorted_expected_elements_are_refused() {
    let mut provider = bare_module(&["Main"]);
    provider.adts.push((
        "Pair".to_string(),
        vec![ADTVariant { name: "Pair".to_string(), elements: names(&["b", "a"]) }],
    ));
    let mut client = bare_module(&["Client"]);
    client.expected_adts.push(ExpectedADT {
        module: names(&["Main"]),
        name: "Pair".to_string(),
        variants: vec![ADTVariant { name: "Pair".to_string(), elements: names(&["b", "a"]) }],
    });
    let e = link(&vec![provider, client]).unwrap_err();
    assert!(matches!(e, LinkError::UnsortedExpectedElements { .. }));
}

#[test]
fn unsorted_provided_elements_are_refused() {
    let mut provider = bare_module(&["Main"]);
    provider.adts.push((
        "Pair".to_string(),
        vec![ADTVariant { name: "Pair".to_string(), elements: names(&["b", "a"]) }],
    ));
    let e = link(&vec![provider]).unwrap_err();
    assert!(matches!(e, LinkError::UnsortedProvidedElements { .. }));
}

#[test]
fn unknown_intrinsic_is_refused() {
    let mut m = bare_module(&["Main"]);
    m.functions.push((
        "MAIN".to_string(),
        vec![RawInstruction::LoadName(
            ModuleName { module: names(&["Prelude"]) },
            "frobnicate".to_string(),
        )],
    ));
    let e = link(&vec![m]).unwrap_err();
    match e {
        LinkError::UnknownIntrinsic { name } => assert_eq!(name, "frobnicate"),
        other => panic!("unexpected error {:?}", other),
    }
}

#[test]
fn unresolved_function_is_refused() {
    let mut m = bare_module(&["Main"]);
    m.functions.push((
        "MAIN".to_string(),
        vec![RawInstruction::LoadName(
            ModuleName { module: names(&["Other"]) },
            "f".to_string(),
        )],
    ));
    let e = link(&vec![m]).unwrap_err();
    assert!(matches!(e, LinkError::UnresolvedFunction { .. }));
}

#[test]
fn unresolved_global_is_refused() {
    let mut m = bare_module(&["Main"]);
    m.functions.push(("MAIN".to_string(), vec![RawInstruction::LoadGlobal("g".to_string())]));
    let e = link(&vec![m]).unwrap_err();
    assert!(matches!(e, LinkError::UnresolvedGlobal { .. }));
}

#[test]
fn unresolved_constructor_is_refused() {
    let mut m = pair_module();
    m.functions.push((
        "MAIN".to_string(),
        vec![RawInstruction::Instantiate(
            ModuleName { module: names(&["Main"]) },
            "Pair".to_string(),
            "Nope".to_string(),
        )],
    ));
    let e = link(&vec![m]).unwrap_err();
    assert!(matches!(e, LinkError::UnresolvedConstructor { .. }));
}

#[test]
fn unknown_field_is_refused() {
    let mut m = pair_module();
    m.functions.push((
        "MAIN".to_string(),
        vec![RawInstruction::Field(
            ModuleName { module: names(&["Main"]) },
            "Pair".to_string(),
            "Pair".to_string(),
            "third".to_string(),
        )],
    ));
    let e = link(&vec![m]).unwrap_err();
    match e {
        LinkError::UnknownField { field } => assert_eq!(field, "third"),
        other => panic!("unexpected error {:?}", other),
    }
}

#[test]
fn constructor_indices_are_dense() {
    let mut a = bare_module(&["A"]);
    a.adts.push((
        "T".to_string(),
        vec![
            ADTVariant { name: "U".to_string(), elements: Vec::new() },
            ADTVariant { name: "V".to_string(), elements: names(&["x"]) },
        ],
    ));
    let mut b = bare_module(&["B"]);
    b.adts.push((
        "S".to_string(),
        vec![ADTVariant { name: "W".to_string(), elements: Vec::new() }],
    ));
    let modules = vec![a, b];
    let (_, context) = link(&modules).unwrap();
    let u = context
        .ctor_called(&ModuleName { module: names(&["A"]) }, &"T".to_string(), &"U".to_string())
        .unwrap();
    let v = context
        .ctor_called(&ModuleName { module: names(&["A"]) }, &"T".to_string(), &"V".to_string())
        .unwrap();
    let w = context
        .ctor_called(&ModuleName { module: names(&["B"]) }, &"S".to_string(), &"W".to_string())
        .unwrap();
    assert_eq!(u.0, 0);
    assert_eq!(v.0, 1);
    assert_eq!(w.0, 2);
    assert_eq!(context.ctor_fields_nbr(v), 1);
    assert_eq!(context.ctor_field(v, &"x".to_string()), Some(0));
}

#[test]
fn qualified_names_join_with_double_colons() {
    let mut m = bare_module(&["Foo", "Bar"]);
    m.functions.push(("go".to_string(), vec![]));
    m.adts.push((
        "T".to_string(),
        vec![ADTVariant { name: "U".to_string(), elements: Vec::new() }],
    ));
    let (_, context) = link(&vec![m]).unwrap();
    let midx = context.module_called(&names(&["Foo", "Bar"])).unwrap();
    let f = context.module_fn_called(midx, "go").unwrap();
    assert_eq!(context.fn_qualified_name(f), "Foo::Bar::go");
    let u = context
        .ctor_called(
            &ModuleName { module: names(&["Foo", "Bar"]) },
            &"T".to_string(),
            &"U".to_string(),
        )
        .unwrap();
    assert_eq!(context.ctor_qualified_name(u), "Foo::Bar::T::U");
}

#[test]
fn module_called_finds_first() {
    let a = bare_module(&["A"]);
    let b = bare_module(&["B"]);
    let (_, context) = link(&vec![a, b]).unwrap();
    assert_eq!(context.module_called(&names(&["A"])).unwrap().0, 0);
    assert_eq!(context.module_called(&names(&["B"])).unwrap().0, 1);
    assert!(context.module_called(&names(&["C"])).is_none());
}

#[test]
fn is_intrinsic_matches_closed_set() {
    for good in ["print", "+", "-", "*", "/", ">", "<", ">=", "<=", "==", "!="] {
        assert!(undovm::program::is_intrinsic(&good.to_string()));
    }
    for bad in ["", "p", "++", "mod"] {
        assert!(!undovm::program::is_intrinsic(&bad.to_string()));
    }
}

#[test]
fn build_context_assigns_dense_ids() {
    let mut a = bare_module(&["A"]);
    a.adts.push((
        "T".to_string(),
        vec![
            ADTVariant { name: "U".to_string(), elements: names(&["x", "y"]) },
            ADTVariant { name: "V".to_string(), elements: Vec::new() },
        ],
    ));
    let mut b = bare_module(&["B"]);
    b.adts.push((
        "S".to_string(),
        vec![ADTVariant { name: "W".to_string(), elements: names(&["z"]) }],
    ));
    let ctx = build_context(&vec![a, b]);
    assert_eq!(ctx.adts.len(), 2);
    let mut expected_id = 0usize;
    for (_, module_adts) in &ctx.adts {
        for (_, ctors) in module_adts {
            for (_, data) in ctors {
                assert_eq!(data.id, expected_id);
                expected_id += 1;
            }
        }
    }
    assert_eq!(expected_id, 3);
    assert_eq!(ctx.adts[0].1[0].1[0].1.elements, 2);
    assert_eq!(ctx.adts[1].1[0].1[0].1.elements, 1);
}
