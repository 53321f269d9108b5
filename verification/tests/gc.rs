use undovm::bc::{ADTVariant, Module, ModuleName, RawInstruction};
use undovm::program::link;
use undovm::vm::{Vm, VmError};

fn names(parts: &[&str]) -> Vec<String> {
    let mut v = Vec::new();
    for p in parts {
        v.push(p.to_string());
    }
    v
}

fn prelude(f: &str) -> RawInstruction {
    RawInstruction::LoadName(ModuleName { module: names(&["Prelude"]) }, f.to_string())
}

/// A module whose `MAIN` seeds local 0 with an integer and then wraps it in
/// `depth` unary `Cons` cells, keeping only the latest in local 0.
fn chain_module(depth: usize, tail: Vec<RawInstruction>) -> Module {
    let mn = ModuleName { module: names(&["Main"]) };
    let mut body = vec![RawInstruction::PushInt(0), RawInstruction::StoreLocal(0)];
    for _ in 0..depth {
        body.push(RawInstruction::LoadLocal(0));
        body.push(RawInstruction::Instantiate(mn.clone(), "List".to_string(), "Cons".to_string()));
        body.push(RawInstruction::StoreLocal(0));
    }
    body.extend(tail);
    Module {
        name: names(&["Main"]),
        strings: Vec::new(),
        functions: vec![("MAIN".to_string(), body)],
        dependencies: Vec::new(),
        adts: vec![(
            "List".to_string(),
            vec![ADTVariant { name: "Cons".to_string(), elements: names(&["tail"]) }],
        )],
        expected_adts: Vec::new(),
    }
}

fn fresh_vm(m: Module) -> Vm {
    let (program, context) = link(&vec![m]).unwrap();
    Vm::new(program, context, &names(&["Main"])).unwrap()
}

#[test]
fn chain_of_thousand_instantiations_survives_collections() {
    let m = chain_module(1000, vec![]);
    let mut vm = fresh_vm(m);
    let r = vm.run(1_000_000, 500);
    assert_eq!(r, Ok(true));
    assert!(vm.done());
}

#[test]
fn collection_keeps_only_the_reachable_chain() {
    // Execute the seed plus exactly 100 wrap rounds with no collection in
    // between: every cell allocated so far is part of the live chain, so
    // compaction keeps all 101 cells.
    let m = chain_module(200, vec![]);
    let mut vm = fresh_vm(m);
    let r = vm.run(2 + 3 * 100, usize::MAX - 1);
    assert_eq!(r, Ok(false));
    assert_eq!(vm.heap_len(), 101);
    vm.collect();
    assert_eq!(vm.heap_len(), 101);
}

#[test]
fn collection_drops_unreachable_cells() {
    // Each round replaces local 0 with a fresh integer, leaving the old
    // one unreachable; compaction keeps exactly the one live cell.
    let mut body = vec![RawInstruction::PushInt(0), RawInstruction::StoreLocal(0)];
    for _ in 0..100 {
        body.push(RawInstruction::PushInt(42));
        body.push(RawInstruction::StoreLocal(0));
    }
    let m = Module {
        name: names(&["Main"]),
        strings: Vec::new(),
        functions: vec![("MAIN".to_string(), body)],
        dependencies: Vec::new(),
        adts: Vec::new(),
        expected_adts: Vec::new(),
    };
    let mut vm = fresh_vm(m);
    let r = vm.run(2 + 2 * 100, usize::MAX - 1);
    assert_eq!(r, Ok(false));
    assert_eq!(vm.heap_len(), 101);
    vm.collect();
    assert_eq!(vm.heap_len(), 1);
}

#[test]
fn collecting_twice_keeps_the_same_size() {
    let m = chain_module(50, vec![]);
    let mut vm = fresh_vm(m);
    let r = vm.run(2 + 3 * 50, usize::MAX - 1);
    assert_eq!(r, Ok(false));
    vm.collect();
    let once = vm.heap_len();
    vm.collect();
    assert_eq!(vm.heap_len(), once);
    vm.collect();
    assert_eq!(vm.heap_len(), once);
}

#[test]
fn values_survive_collection_on_every_step() {
    // Compact before every single instruction: the program's observable
    // behaviour is unchanged.
    let mn = ModuleName { module: names(&["Main"]) };
    let m = Module {
        name: names(&["Main"]),
        strings: names(&["kept"]),
        functions: vec![(
            "MAIN".to_string(),
            vec![
                RawInstruction::PushInt(7),
                RawInstruction::PushInt(9),
                RawInstruction::Instantiate(mn.clone(), "Pair".to_string(), "Pair".to_string()),
                RawInstruction::StoreLocal(0),
                RawInstruction::PushString(0),
                prelude("print"),
                RawInstruction::Call(1),
                RawInstruction::LoadLocal(0),
                RawInstruction::Field(
                    mn.clone(),
                    "Pair".to_string(),
                    "Pair".to_string(),
                    "snd".to_string(),
                ),
                prelude("print"),
                RawInstruction::Call(1),
                RawInstruction::LoadLocal(0),
                RawInstruction::Field(
                    mn.clone(),
                    "Pair".to_string(),
                    "Pair".to_string(),
                    "fst".to_string(),
                ),
                prelude("print"),
                RawInstruction::Call(1),
            ],
        )],
        dependencies: Vec::new(),
        adts: vec![(
            "Pair".to_string(),
            vec![ADTVariant { name: "Pair".to_string(), elements: names(&["fst", "snd"]) }],
        )],
        expected_adts: Vec::new(),
    };
    let mut vm = fresh_vm(m);
    let r = vm.run(1_000_000, 1);
    assert_eq!(r, Ok(true));
    let mut lines = Vec::new();
    let mut i = 0;
    while i < vm.output_len() {
        lines.push(vm.output_line(i).clone());
        i += 1;
    }
    assert_eq!(lines, vec!["kept".to_string(), "9".to_string(), "7".to_string()]);
}

#[test]
fn collection_after_termination_empties_the_heap() {
    let m = chain_module(10, vec![]);
    let mut vm = fresh_vm(m);
    assert_eq!(vm.run(1_000_000, 7), Ok(true));
    vm.collect();
    assert_eq!(vm.heap_len(), 0);
}

#[test]
fn shared_structure_is_copied_once() {
    // Two locals hold the same pair; after compaction the heap still holds
    // one pair (three cells), not two.
    let mn = ModuleName { module: names(&["Main"]) };
    let m = Module {
        name: names(&["Main"]),
        strings: Vec::new(),
        functions: vec![(
            "MAIN".to_string(),
            vec![
                RawInstruction::PushInt(7),
                RawInstruction::PushInt(9),
                RawInstruction::Instantiate(mn.clone(), "Pair".to_string(), "Pair".to_string()),
                RawInstruction::StoreLocal(0),
                RawInstruction::LoadLocal(0),
                RawInstruction::StoreLocal(1),
                RawInstruction::PushInt(1),
                RawInstruction::StoreLocal(2),
            ],
        )],
        dependencies: Vec::new(),
        adts: vec![(
            "Pair".to_string(),
            vec![ADTVariant { name: "Pair".to_string(), elements: names(&["fst", "snd"]) }],
        )],
        expected_adts: Vec::new(),
    };
    let mut vm = fresh_vm(m);
    assert_eq!(vm.run(8, usize::MAX - 1), Ok(false));
    vm.collect();
    // live: the pair cell, its two integers, and the extra integer
    assert_eq!(vm.heap_len(), 4);
}

#[test]
fn run_out_of_fuel_reports_unfinished() {
    let m = chain_module(1000, vec![]);
    let mut vm = fresh_vm(m);
    assert_eq!(vm.run(10, 500), Ok(false));
    assert!(!vm.done());
    let r = vm.run(1_000_000, 500);
    assert_eq!(r, Ok(true));
    assert!(vm.done());
}

#[test]
fn errors_are_stable_across_collections() {
    let m = chain_module(5, vec![RawInstruction::LoadLocal(7)]);
    let mut vm = fresh_vm(m);
    assert_eq!(vm.run(1_000_000, 1), Err(VmError::UninitializedLocal));
}
