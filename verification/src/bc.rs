//! Raw bytecode module model: the deserialized representation of one module
//! as handed to the linker, together with its mathematical (deep) views.

use vstd::prelude::*;

verus! {

/// A module path such as `Foo::Bar`, as an ordered sequence of segments.
#[derive(Debug, Clone)]
pub struct ModuleName {
    pub module: Vec<String>,
}

/// One unresolved instruction, with symbolic cross-module references.
#[derive(Debug, Clone)]
pub enum RawInstruction {
    PushInt(i64),
    PushString(usize),
    LoadLocal(usize),
    StoreLocal(usize),
    LoadReg(usize),
    StoreReg(usize),
    LoadName(ModuleName, String),
    LoadGlobal(String),
    Unless(usize),
    Jump(usize),
    Call(usize),
    Instantiate(ModuleName, String, String),
    IsVariant(ModuleName, String, String),
    Field(ModuleName, String, String, String),
}

/// One variant of an algebraic datatype: a name and a sorted sequence of
/// field names.
#[derive(Debug, Clone)]
pub struct ADTVariant {
    pub name: String,
    pub elements: Vec<String>,
}

/// A declaration that some other module exports a datatype with exactly
/// these variants; checked by the linker so that cross-module constructor
/// indices and field offsets are stable under separate compilation.
#[derive(Debug, Clone)]
pub struct ExpectedADT {
    pub module: Vec<String>,
    pub name: String,
    pub variants: Vec<ADTVariant>,
}

/// One raw module: functions and datatypes keyed by name (each name occurs
/// once), a per-module string table, and the names of imported modules.
#[derive(Debug, Clone)]
pub struct Module {
    pub name: Vec<String>,
    pub strings: Vec<String>,
    pub functions: Vec<(String, Vec<RawInstruction>)>,
    pub dependencies: Vec<Vec<String>>,
    pub adts: Vec<(String, Vec<ADTVariant>)>,
    pub expected_adts: Vec<ExpectedADT>,
}

/// Mathematical view of a raw instruction: names become character sequences.
pub enum SpecRawInstr {
    PushInt(i64),
    PushString(usize),
    LoadLocal(usize),
    StoreLocal(usize),
    LoadReg(usize),
    StoreReg(usize),
    LoadName(Seq<Seq<char>>, Seq<char>),
    LoadGlobal(Seq<char>),
    Unless(usize),
    Jump(usize),
    Call(usize),
    Instantiate(Seq<Seq<char>>, Seq<char>, Seq<char>),
    IsVariant(Seq<Seq<char>>, Seq<char>, Seq<char>),
    Field(Seq<Seq<char>>, Seq<char>, Seq<char>, Seq<char>),
}

/// Mathematical view of an ADT variant.
pub struct SpecVariant {
    pub name: Seq<char>,
    pub elements: Seq<Seq<char>>,
}

/// Mathematical view of an expected-ADT declaration.
pub struct SpecExpectedAdt {
    pub module: Seq<Seq<char>>,
    pub name: Seq<char>,
    pub variants: Seq<SpecVariant>,
}

/// Mathematical view of a raw module.
pub struct SpecModule {
    pub name: Seq<Seq<char>>,
    pub strings: Seq<Seq<char>>,
    pub functions: Seq<(Seq<char>, Seq<SpecRawInstr>)>,
    pub dependencies: Seq<Seq<Seq<char>>>,
    pub adts: Seq<(Seq<char>, Seq<SpecVariant>)>,
    pub expected_adts: Seq<SpecExpectedAdt>,
}

impl DeepView for ModuleName {
    type V = Seq<Seq<char>>;

    open spec fn deep_view(&self) -> Seq<Seq<char>> {
        self.module.deep_view()
    }
}

impl DeepView for RawInstruction {
    type V = SpecRawInstr;

    open spec fn deep_view(&self) -> SpecRawInstr {
        match self {
            RawInstruction::PushInt(i) => SpecRawInstr::PushInt(*i),
            RawInstruction::PushString(i) => SpecRawInstr::PushString(*i),
            RawInstruction::LoadLocal(i) => SpecRawInstr::LoadLocal(*i),
            RawInstruction::StoreLocal(i) => SpecRawInstr::StoreLocal(*i),
            RawInstruction::LoadReg(i) => SpecRawInstr::LoadReg(*i),
            RawInstruction::StoreReg(i) => SpecRawInstr::StoreReg(*i),
            RawInstruction::LoadName(m, f) => SpecRawInstr::LoadName(m.deep_view(), f@),
            RawInstruction::LoadGlobal(f) => SpecRawInstr::LoadGlobal(f@),
            RawInstruction::Unless(i) => SpecRawInstr::Unless(*i),
            RawInstruction::Jump(i) => SpecRawInstr::Jump(*i),
            RawInstruction::Call(i) => SpecRawInstr::Call(*i),
            RawInstruction::Instantiate(m, d, c) => SpecRawInstr::Instantiate(
                m.deep_view(),
                d@,
                c@,
            ),
            RawInstruction::IsVariant(m, d, c) => SpecRawInstr::IsVariant(m.deep_view(), d@, c@),
            RawInstruction::Field(m, d, c, f) => SpecRawInstr::Field(m.deep_view(), d@, c@, f@),
        }
    }
}

impl DeepView for ADTVariant {
    type V = SpecVariant;

    open spec fn deep_view(&self) -> SpecVariant {
        SpecVariant { name: self.name@, elements: self.elements.deep_view() }
    }
}

impl DeepView for ExpectedADT {
    type V = SpecExpectedAdt;

    open spec fn deep_view(&self) -> SpecExpectedAdt {
        SpecExpectedAdt {
            module: self.module.deep_view(),
            name: self.name@,
            variants: self.variants.deep_view(),
        }
    }
}

impl DeepView for Module {
    type V = SpecModule;

    open spec fn deep_view(&self) -> SpecModule {
        SpecModule {
            name: self.name.deep_view(),
            strings: self.strings.deep_view(),
            functions: self.functions.deep_view(),
            dependencies: self.dependencies.deep_view(),
            adts: self.adts.deep_view(),
            expected_adts: self.expected_adts.deep_view(),
        }
    }
}

} // verus!
