use undovm::bc::{ADTVariant, Module, ModuleName, RawInstruction};
use undovm::program::link;
use undovm::vm::{Vm, VmError};

fn names(parts: &[&str]) -> Vec<String> {
    let mut v = Vec::new();
    for p in parts {
        v.push(p.to_string());
    }
    v
}

fn prelude(f: &str) -> RawInstruction {
    RawInstruction::LoadName(ModuleName { module: names(&["Prelude"]) }, f.to_string())
}

fn main_module(strings: &[&str], body: Vec<RawInstruction>) -> Module {
    Module {
        name: names(&["Main"]),
        strings: names(strings),
        functions: vec![("MAIN".to_string(), body)],
        dependencies: Vec::new(),
        adts: Vec::new(),
        expected_adts: Vec::new(),
    }
}

fn run_modules(modules: Vec<Module>, entry: &[&str]) -> (Vm, Result<bool, VmError>) {
    let (program, context) = link(&modules).expect("program should link");
    let mut vm = Vm::new(program, context, &names(entry)).expect("entrypoint should resolve");
    let r = vm.run(1_000_000, 500);
    (vm, r)
}

fn output_lines(vm: &Vm) -> Vec<String> {
    let mut lines = Vec::new();
    let mut i = 0;
    while i < vm.output_len() {
        lines.push(vm.output_line(i).clone());
        i += 1;
    }
    lines
}

#[test]
fn hello_world() {
    let m = main_module(
        &["hello"],
        vec![RawInstruction::PushString(0), prelude("print"), RawInstruction::Call(1)],
    );
    let (vm, r) = run_modules(vec![m], &["Main"]);
    assert_eq!(r, Ok(true));
    assert_eq!(output_lines(&vm), vec!["hello".to_string()]);
}

#[test]
fn arithmetic_fold() {
    let m = main_module(
        &[],
        vec![
            RawInstruction::PushInt(1),
            RawInstruction::PushInt(2),
            RawInstruction::PushInt(3),
            prelude("+"),
            RawInstruction::Call(3),
            prelude("print"),
            RawInstruction::Call(1),
        ],
    );
    let (vm, r) = run_modules(vec![m], &["Main"]);
    assert_eq!(r, Ok(true));
    assert_eq!(output_lines(&vm), vec!["6".to_string()]);
}

#[test]
fn subtraction_folds_in_pop_order() {
    let m = main_module(
        &[],
        vec![
            RawInstruction::PushInt(1),
            RawInstruction::PushInt(2),
            RawInstruction::PushInt(5),
            prelude("-"),
            RawInstruction::Call(3),
            prelude("print"),
            RawInstruction::Call(1),
        ],
    );
    let (vm, r) = run_modules(vec![m], &["Main"]);
    assert_eq!(r, Ok(true));
    assert_eq!(output_lines(&vm), vec!["2".to_string()]);
}

#[test]
fn conditional_on_zero_branches() {
    let m = main_module(
        &[],
        vec![
            RawInstruction::PushInt(0),
            RawInstruction::Unless(4),
            RawInstruction::PushInt(1),
            RawInstruction::Jump(5),
            RawInstruction::PushInt(2),
            prelude("print"),
            RawInstruction::Call(1),
        ],
    );
    let (vm, r) = run_modules(vec![m], &["Main"]);
    assert_eq!(r, Ok(true));
    assert_eq!(output_lines(&vm), vec!["2".to_string()]);
}

#[test]
fn conditional_on_nonzero_falls_through() {
    let m = main_module(
        &[],
        vec![
            RawInstruction::PushInt(1),
            RawInstruction::Unless(4),
            RawInstruction::PushInt(1),
            RawInstruction::Jump(5),
            RawInstruction::PushInt(2),
            prelude("print"),
            RawInstruction::Call(1),
        ],
    );
    let (vm, r) = run_modules(vec![m], &["Main"]);
    assert_eq!(r, Ok(true));
    assert_eq!(output_lines(&vm), vec!["1".to_string()]);
}

#[test]
fn unless_treats_non_integers_as_true() {
    let m = main_module(
        &["s"],
        vec![
            RawInstruction::PushString(0),
            RawInstruction::Unless(4),
            RawInstruction::PushInt(1),
            RawInstruction::Jump(5),
            RawInstruction::PushInt(2),
            prelude("print"),
            RawInstruction::Call(1),
        ],
    );
    let (vm, r) = run_modules(vec![m], &["Main"]);
    assert_eq!(r, Ok(true));
    assert_eq!(output_lines(&vm), vec!["1".to_string()]);
}

fn pair_main(body: Vec<RawInstruction>) -> Module {
    let mut m = main_module(&[], body);
    m.adts.push((
        "Pair".to_string(),
        vec![ADTVariant { name: "Pair".to_string(), elements: names(&["fst", "snd"]) }],
    ));
    m
}

#[test]
fn adt_round_trip() {
    let mn = ModuleName { module: names(&["Main"]) };
    let m = pair_main(vec![
        RawInstruction::PushInt(7),
        RawInstruction::PushInt(9),
        RawInstruction::Instantiate(mn.clone(), "Pair".to_string(), "Pair".to_string()),
        RawInstruction::StoreLocal(0),
        RawInstruction::LoadLocal(0),
        RawInstruction::Field(mn.clone(), "Pair".to_string(), "Pair".to_string(), "snd".to_string()),
        prelude("print"),
        RawInstruction::Call(1),
        RawInstruction::LoadLocal(0),
        RawInstruction::Field(mn.clone(), "Pair".to_string(), "Pair".to_string(), "fst".to_string()),
        prelude("print"),
        RawInstruction::Call(1),
    ]);
    let (vm, r) = run_modules(vec![m], &["Main"]);
    assert_eq!(r, Ok(true));
    assert_eq!(output_lines(&vm), vec!["9".to_string(), "7".to_string()]);
}

#[test]
fn cross_module_call() {
    let mut a = main_module(
        &[],
        vec![
            RawInstruction::PushInt(41),
            RawInstruction::LoadName(ModuleName { module: names(&["B"]) }, "inc".to_string()),
            RawInstruction::Call(1),
            prelude("print"),
            RawInstruction::Call(1),
        ],
    );
    a.name = names(&["A"]);
    a.dependencies.push(names(&["B"]));
    let b = Module {
        name: names(&["B"]),
        strings: Vec::new(),
        functions: vec![(
            "inc".to_string(),
            vec![
                RawInstruction::LoadLocal(0),
                RawInstruction::PushInt(1),
                prelude("+"),
                RawInstruction::Call(2),
            ],
        )],
        dependencies: Vec::new(),
        adts: Vec::new(),
        expected_adts: Vec::new(),
    };
    let (vm, r) = run_modules(vec![a, b], &["A"]);
    assert_eq!(r, Ok(true));
    assert_eq!(output_lines(&vm), vec!["42".to_string()]);
}

#[test]
fn comparison_applies_to_popped_pair() {
    // Arguments are pushed left to right; the comparison applies the
    // operator to the first and second popped values, so `2 > 1` here.
    let m = main_module(
        &[],
        vec![
            RawInstruction::PushInt(1),
            RawInstruction::PushInt(2),
            prelude(">"),
            RawInstruction::Call(2),
            prelude("print"),
            RawInstruction::Call(1),
        ],
    );
    let (vm, r) = run_modules(vec![m], &["Main"]);
    assert_eq!(r, Ok(true));
    assert_eq!(output_lines(&vm), vec!["1".to_string()]);
}

#[test]
fn comparison_with_wrong_arity_fails() {
    let m = main_module(
        &[],
        vec![
            RawInstruction::PushInt(1),
            RawInstruction::PushInt(2),
            RawInstruction::PushInt(3),
            prelude("=="),
            RawInstruction::Call(3),
        ],
    );
    let (_, r) = run_modules(vec![m], &["Main"]);
    assert_eq!(r, Err(VmError::NonBinaryComparison));
}

#[test]
fn division_by_zero_fails() {
    let m = main_module(
        &[],
        vec![
            RawInstruction::PushInt(0),
            RawInstruction::PushInt(8),
            prelude("/"),
            RawInstruction::Call(2),
        ],
    );
    let (_, r) = run_modules(vec![m], &["Main"]);
    assert_eq!(r, Err(VmError::DivisionByZero));
}

#[test]
fn addition_overflow_fails() {
    let m = main_module(
        &[],
        vec![
            RawInstruction::PushInt(1),
            RawInstruction::PushInt(i64::MAX),
            prelude("+"),
            RawInstruction::Call(2),
        ],
    );
    let (_, r) = run_modules(vec![m], &["Main"]);
    assert_eq!(r, Err(VmError::ArithmeticOverflow));
}

#[test]
fn arithmetic_on_string_fails() {
    let m = main_module(
        &["s"],
        vec![
            RawInstruction::PushInt(1),
            RawInstruction::PushString(0),
            prelude("+"),
            RawInstruction::Call(2),
        ],
    );
    let (_, r) = run_modules(vec![m], &["Main"]);
    assert_eq!(r, Err(VmError::NotAnInt));
}

#[test]
fn out_of_order_local_write_fails() {
    let m = main_module(&[], vec![RawInstruction::PushInt(1), RawInstruction::StoreLocal(3)]);
    let (_, r) = run_modules(vec![m], &["Main"]);
    assert_eq!(r, Err(VmError::OutOfOrderLocal));
}

#[test]
fn locals_overwrite_in_place() {
    let m = main_module(
        &[],
        vec![
            RawInstruction::PushInt(1),
            RawInstruction::StoreLocal(0),
            RawInstruction::PushInt(5),
            RawInstruction::StoreLocal(0),
            RawInstruction::LoadLocal(0),
            prelude("print"),
            RawInstruction::Call(1),
        ],
    );
    let (vm, r) = run_modules(vec![m], &["Main"]);
    assert_eq!(r, Ok(true));
    assert_eq!(output_lines(&vm), vec!["5".to_string()]);
}

#[test]
fn uninitialized_local_read_fails() {
    let m = main_module(&[], vec![RawInstruction::LoadLocal(0)]);
    let (_, r) = run_modules(vec![m], &["Main"]);
    assert_eq!(r, Err(VmError::UninitializedLocal));
}

#[test]
fn store_on_empty_stack_fails() {
    let m = main_module(&[], vec![RawInstruction::StoreLocal(0)]);
    let (_, r) = run_modules(vec![m], &["Main"]);
    assert_eq!(r, Err(VmError::StackUnderflow));
}

#[test]
fn registers_are_sparse() {
    let m = main_module(
        &[],
        vec![
            RawInstruction::PushInt(11),
            RawInstruction::StoreReg(3),
            RawInstruction::LoadReg(3),
            prelude("print"),
            RawInstruction::Call(1),
        ],
    );
    let (vm, r) = run_modules(vec![m], &["Main"]);
    assert_eq!(r, Ok(true));
    assert_eq!(output_lines(&vm), vec!["11".to_string()]);
}

#[test]
fn empty_register_slot_fails() {
    let m = main_module(
        &[],
        vec![RawInstruction::PushInt(11), RawInstruction::StoreReg(3), RawInstruction::LoadReg(1)],
    );
    let (_, r) = run_modules(vec![m], &["Main"]);
    assert_eq!(r, Err(VmError::RegisterEmpty));
}

#[test]
fn unallocated_register_fails() {
    let m = main_module(&[], vec![RawInstruction::LoadReg(0)]);
    let (_, r) = run_modules(vec![m], &["Main"]);
    assert_eq!(r, Err(VmError::RegisterNotAllocated));
}

#[test]
fn is_variant_distinguishes_constructors() {
    let mn = ModuleName { module: names(&["Main"]) };
    let mut m = main_module(
        &[],
        vec![
            RawInstruction::Instantiate(mn.clone(), "T".to_string(), "U".to_string()),
            RawInstruction::IsVariant(mn.clone(), "T".to_string(), "U".to_string()),
            prelude("print"),
            RawInstruction::Call(1),
            RawInstruction::Instantiate(mn.clone(), "T".to_string(), "V".to_string()),
            RawInstruction::IsVariant(mn.clone(), "T".to_string(), "U".to_string()),
            prelude("print"),
            RawInstruction::Call(1),
        ],
    );
    m.adts.push((
        "T".to_string(),
        vec![
            ADTVariant { name: "U".to_string(), elements: Vec::new() },
            ADTVariant { name: "V".to_string(), elements: Vec::new() },
        ],
    ));
    let (vm, r) = run_modules(vec![m], &["Main"]);
    assert_eq!(r, Ok(true));
    assert_eq!(output_lines(&vm), vec!["1".to_string(), "0".to_string()]);
}

#[test]
fn is_variant_on_non_variant_fails() {
    let mn = ModuleName { module: names(&["Main"]) };
    let m = pair_main(vec![
        RawInstruction::PushInt(1),
        RawInstruction::IsVariant(mn, "Pair".to_string(), "Pair".to_string()),
    ]);
    let (_, r) = run_modules(vec![m], &["Main"]);
    assert_eq!(r, Err(VmError::NotAVariant));
}

#[test]
fn field_of_wrong_constructor_fails() {
    let mn = ModuleName { module: names(&["Main"]) };
    let mut m = main_module(
        &[],
        vec![
            RawInstruction::PushInt(1),
            RawInstruction::Instantiate(mn.clone(), "T".to_string(), "V".to_string()),
            RawInstruction::Field(mn.clone(), "T".to_string(), "U".to_string(), "x".to_string()),
        ],
    );
    m.adts.push((
        "T".to_string(),
        vec![
            ADTVariant { name: "U".to_string(), elements: names(&["x"]) },
            ADTVariant { name: "V".to_string(), elements: names(&["x"]) },
        ],
    ));
    let (_, r) = run_modules(vec![m], &["Main"]);
    assert_eq!(r, Err(VmError::WrongConstructor));
}

#[test]
fn calling_a_non_callable_fails() {
    let m = main_module(
        &[],
        vec![RawInstruction::PushInt(1), RawInstruction::PushInt(2), RawInstruction::Call(1)],
    );
    let (_, r) = run_modules(vec![m], &["Main"]);
    assert_eq!(r, Err(VmError::NotACallable));
}

#[test]
fn callee_leaking_values_fails() {
    let mut m = main_module(
        &[],
        vec![RawInstruction::LoadGlobal("two".to_string()), RawInstruction::Call(0)],
    );
    m.functions.push((
        "two".to_string(),
        vec![RawInstruction::PushInt(1), RawInstruction::PushInt(2)],
    ));
    let (_, r) = run_modules(vec![m], &["Main"]);
    assert_eq!(r, Err(VmError::LeakedValues));
}

#[test]
fn top_level_leak_fails() {
    let m = main_module(&[], vec![RawInstruction::PushInt(1)]);
    let (_, r) = run_modules(vec![m], &["Main"]);
    assert_eq!(r, Err(VmError::TopLevelLeak));
}

#[test]
fn negative_integers_print_with_sign() {
    let m = main_module(
        &[],
        vec![
            RawInstruction::PushInt(-50),
            prelude("print"),
            RawInstruction::Call(1),
            RawInstruction::PushInt(0),
            prelude("print"),
            RawInstruction::Call(1),
        ],
    );
    let (vm, r) = run_modules(vec![m], &["Main"]);
    assert_eq!(r, Ok(true));
    assert_eq!(output_lines(&vm), vec!["-50".to_string(), "0".to_string()]);
}

#[test]
fn function_values_print_as_placeholder() {
    let m = main_module(
        &[],
        vec![
            RawInstruction::LoadGlobal("MAIN".to_string()),
            prelude("print"),
            RawInstruction::Call(1),
        ],
    );
    let (vm, r) = run_modules(vec![m], &["Main"]);
    assert_eq!(r, Ok(true));
    assert_eq!(output_lines(&vm), vec!["<value>".to_string()]);
}

#[test]
fn entry_module_must_exist() {
    let m = main_module(&[], vec![]);
    let (program, context) = link(&vec![m]).unwrap();
    let e = Vm::new(program, context, &names(&["Other"])).unwrap_err();
    assert_eq!(e, VmError::EntryModuleNotFound);
}

#[test]
fn entry_main_must_exist() {
    let mut m = main_module(&[], vec![]);
    m.functions.clear();
    m.functions.push(("other".to_string(), vec![]));
    let (program, context) = link(&vec![m]).unwrap();
    let e = Vm::new(program, context, &names(&["Main"])).unwrap_err();
    assert_eq!(e, VmError::EntryMainNotFound);
}

#[test]
fn division_truncates_toward_zero() {
    let m = main_module(
        &[],
        vec![
            RawInstruction::PushInt(2),
            RawInstruction::PushInt(-7),
            prelude("/"),
            RawInstruction::Call(2),
            prelude("print"),
            RawInstruction::Call(1),
        ],
    );
    let (vm, r) = run_modules(vec![m], &["Main"]);
    assert_eq!(r, Ok(true));
    assert_eq!(output_lines(&vm), vec!["-3".to_string()]);
}

#[test]
fn empty_main_terminates_cleanly() {
    let m = main_module(&[], vec![]);
    let (vm, r) = run_modules(vec![m], &["Main"]);
    assert_eq!(r, Ok(true));
    assert_eq!(vm.output_len(), 0);
}
