//! The linker: validates a set of raw modules, assigns dense global indices
//! to modules, functions, datatypes and constructors, and rewrites symbolic
//! references in raw bytecode into direct index-based operands.

use vstd::prelude::*;
use vstd::relations::sorted_by;
use crate::bc;
use crate::bc::{SpecExpectedAdt, SpecModule, SpecRawInstr, SpecVariant};
use crate::lex::{lex_leq_fn, names_eq, names_sorted, sort_names, str_eq};
use crate::seqs::first_index;

verus! {

/// Position of a module in the supplied-module order.
#[derive(Clone, Copy, Debug, PartialEq, Eq, Structural)]
pub struct ModuleIndex(pub usize);

/// Dense program-wide index of a function.
#[derive(Clone, Copy, Debug, PartialEq, Eq, Structural)]
pub struct FunctionIndex(pub usize);

/// Address of a string literal: the owning module and the offset in that
/// module's string table.
#[derive(Clone, Copy, Debug, PartialEq, Eq, Structural)]
pub struct StringTableIndex(pub ModuleIndex, pub usize);

/// Dense program-wide index of a datatype.
#[derive(Clone, Copy, Debug, PartialEq, Eq, Structural)]
pub struct DatatypeIndex(pub usize);

/// Dense program-wide index of a constructor.
#[derive(Clone, Copy, Debug, PartialEq, Eq, Structural)]
pub struct ConstructorIndex(pub usize);

/// One resolved instruction: every symbolic reference replaced by an index.
#[derive(Debug, Clone, PartialEq, Eq)]
pub enum Instruction {
    PushInt(i64),
    PushString(StringTableIndex),
    LoadLocal(usize),
    StoreLocal(usize),
    LoadReg(usize),
    StoreReg(usize),
    Unless(usize),
    Jump(usize),
    Call(usize),
    LoadName(FunctionIndex),
    LoadIntrinsic(String),
    Instantiate(ConstructorIndex),
    IsVariant(ConstructorIndex),
    Field(ConstructorIndex, usize),
}

/// Mathematical view of a resolved instruction.
pub enum SpecInstr {
    PushInt(i64),
    PushString(StringTableIndex),
    LoadLocal(usize),
    StoreLocal(usize),
    LoadReg(usize),
    StoreReg(usize),
    Unless(usize),
    Jump(usize),
    Call(usize),
    LoadName(FunctionIndex),
    LoadIntrinsic(Seq<char>),
    Instantiate(ConstructorIndex),
    IsVariant(ConstructorIndex),
    Field(ConstructorIndex, usize),
}

impl DeepView for Instruction {
    type V = SpecInstr;

    open spec fn deep_view(&self) -> SpecInstr {
        match self {
            Instruction::PushInt(n) => SpecInstr::PushInt(*n),
            Instruction::PushString(i) => SpecInstr::PushString(*i),
            Instruction::LoadLocal(i) => SpecInstr::LoadLocal(*i),
            Instruction::StoreLocal(i) => SpecInstr::StoreLocal(*i),
            Instruction::LoadReg(i) => SpecInstr::LoadReg(*i),
            Instruction::StoreReg(i) => SpecInstr::StoreReg(*i),
            Instruction::Unless(i) => SpecInstr::Unless(*i),
            Instruction::Jump(i) => SpecInstr::Jump(*i),
            Instruction::Call(i) => SpecInstr::Call(*i),
            Instruction::LoadName(f) => SpecInstr::LoadName(*f),
            Instruction::LoadIntrinsic(n) => SpecInstr::LoadIntrinsic(n@),
            Instruction::Instantiate(c) => SpecInstr::Instantiate(*c),
            Instruction::IsVariant(c) => SpecInstr::IsVariant(*c),
            Instruction::Field(c, i) => SpecInstr::Field(*c, *i),
        }
    }
}

/// A linking failure. The variant says which validation failed; the fields
/// carry the names involved, for reporting.
#[derive(Debug, Clone, PartialEq, Eq)]
pub enum LinkError {
    /// A module depends on a module name that no supplied module has.
    MissingDependency { dependency: Vec<String> },
    /// An expected-ADT declaration names a module that is not supplied.
    ExpectedAdtUnknownModule { module: Vec<String>, target: Vec<String> },
    /// An expected-ADT declaration names a datatype its target lacks.
    ExpectedAdtUnknownAdt { module: Vec<String>, target: Vec<String>, name: String },
    /// The variant-name set of an expected ADT differs from the provider's.
    AdtVariantMismatch { module: Vec<String>, target: Vec<String>, name: String },
    /// A variant's field-name sequence differs between expectation and
    /// provider.
    AdtElementsMismatch { module: Vec<String>, name: String, variant: String },
    /// An expected variant's field names are not sorted.
    UnsortedExpectedElements { module: Vec<String>, name: String, variant: String },
    /// A provided variant's field names are not sorted.
    UnsortedProvidedElements { module: Vec<String>, name: String, variant: String },
    /// A `Prelude` name that is not a known intrinsic.
    UnknownIntrinsic { name: String },
    /// A `LoadName` whose module and function name resolve to no function.
    UnresolvedFunction { module: Vec<String>, name: String },
    /// A `LoadGlobal` whose name is not a function of the current module.
    UnresolvedGlobal { name: String },
    /// A constructor reference that resolves to no constructor.
    UnresolvedConstructor { module: Vec<String>, datatype: String, ctor: String },
    /// A `Field` naming a field its constructor lacks.
    UnknownField { field: String },
}

/// The linked program: one sequence of resolved instructions per function,
/// indexed by `FunctionIndex`.
#[derive(Debug, PartialEq, Eq)]
pub struct Program {
    functions: Vec<Vec<Instruction>>,
}

impl View for Program {
    type V = Seq<Seq<SpecInstr>>;

    closed spec fn view(&self) -> Seq<Seq<SpecInstr>> {
        self.functions.deep_view()
    }
}

impl Program {
    /// The instructions of the function at `idx`.
    pub fn at(&self, idx: FunctionIndex) -> (r: &Vec<Instruction>)
        requires
            idx.0 < self@.len(),
        ensures
            r.deep_view() == self@[idx.0 as int],
    {
        &self.functions[idx.0]
    }

    /// How many functions the program holds.
    pub fn len(&self) -> (r: usize)
        ensures
            r == self@.len(),
    {
        self.functions.len()
    }
}

/// The linker's name-resolution tables: parallel arrays keyed by the dense
/// entity indices.
#[derive(Debug, PartialEq, Eq)]
pub struct Context {
    module_names: Vec<Vec<String>>,
    function_modules: Vec<ModuleIndex>,
    function_module_names: Vec<Vec<String>>,
    function_names: Vec<String>,
    datatype_modules: Vec<ModuleIndex>,
    datatype_module_names: Vec<Vec<String>>,
    datatype_names: Vec<String>,
    constructor_modules: Vec<ModuleIndex>,
    constructor_module_names: Vec<Vec<String>>,
    constructor_datatypes: Vec<DatatypeIndex>,
    constructor_datatype_names: Vec<String>,
    constructor_names: Vec<String>,
    constructor_fields: Vec<Vec<String>>,
    strings: Vec<Vec<String>>,
}

/// Mathematical view of the resolution tables.
pub struct SpecContext {
    pub module_names: Seq<Seq<Seq<char>>>,
    pub function_modules: Seq<ModuleIndex>,
    pub function_module_names: Seq<Seq<Seq<char>>>,
    pub function_names: Seq<Seq<char>>,
    pub datatype_modules: Seq<ModuleIndex>,
    pub datatype_module_names: Seq<Seq<Seq<char>>>,
    pub datatype_names: Seq<Seq<char>>,
    pub constructor_modules: Seq<ModuleIndex>,
    pub constructor_module_names: Seq<Seq<Seq<char>>>,
    pub constructor_datatypes: Seq<DatatypeIndex>,
    pub constructor_datatype_names: Seq<Seq<char>>,
    pub constructor_names: Seq<Seq<char>>,
    pub constructor_fields: Seq<Seq<Seq<char>>>,
    pub strings: Seq<Seq<Seq<char>>>,
}

impl View for Context {
    type V = SpecContext;

    closed spec fn view(&self) -> SpecContext {
        SpecContext {
            module_names: self.module_names.deep_view(),
            function_modules: self.function_modules@,
            function_module_names: self.function_module_names.deep_view(),
            function_names: self.function_names.deep_view(),
            datatype_modules: self.datatype_modules@,
            datatype_module_names: self.datatype_module_names.deep_view(),
            datatype_names: self.datatype_names.deep_view(),
            constructor_modules: self.constructor_modules@,
            constructor_module_names: self.constructor_module_names.deep_view(),
            constructor_datatypes: self.constructor_datatypes@,
            constructor_datatype_names: self.constructor_datatype_names.deep_view(),
            constructor_names: self.constructor_names.deep_view(),
            constructor_fields: self.constructor_fields.deep_view(),
            strings: self.strings.deep_view(),
        }
    }
}

/// The name of the pseudo-module of intrinsics.
pub open spec fn prelude_name() -> Seq<Seq<char>> {
    seq!["Prelude"@]
}

/// The closed set of intrinsic names callable through `Prelude`.
pub open spec fn is_intrinsic_name(n: Seq<char>) -> bool {
    ||| n == "print"@
    ||| n == "+"@
    ||| n == "-"@
    ||| n == "*"@
    ||| n == "/"@
    ||| n == ">"@
    ||| n == "<"@
    ||| n == ">="@
    ||| n == "<="@
    ||| n == "=="@
    ||| n == "!="@
}

// ---------------------------------------------------------------------------
// Name lookups over the tables, as first-match searches.
// ---------------------------------------------------------------------------

pub open spec fn module_name_pred(c: SpecContext, name: Seq<Seq<char>>) -> spec_fn(int) -> bool {
    |t: int| c.module_names[t] == name
}

pub open spec fn module_called_spec(c: SpecContext, name: Seq<Seq<char>>) -> Option<int> {
    first_index(c.module_names.len() as int, module_name_pred(c, name))
}

pub open spec fn module_fn_pred(c: SpecContext, m: int, name: Seq<char>) -> spec_fn(int) -> bool {
    |i: int| c.function_modules[i].0 == m && c.function_names[i] == name
}

pub open spec fn module_fn_called_spec(c: SpecContext, m: int, name: Seq<char>) -> Option<int> {
    first_index(c.function_names.len() as int, module_fn_pred(c, m, name))
}

pub open spec fn fn_name_pred(c: SpecContext, mname: Seq<Seq<char>>, name: Seq<char>) -> spec_fn(
    int,
) -> bool {
    |i: int| c.function_module_names[i] == mname && c.function_names[i] == name
}

pub open spec fn fn_called_spec(c: SpecContext, mname: Seq<Seq<char>>, name: Seq<char>) -> Option<
    int,
> {
    first_index(c.function_names.len() as int, fn_name_pred(c, mname, name))
}

pub open spec fn module_datatype_pred(c: SpecContext, m: int, dt: Seq<char>) -> spec_fn(
    int,
) -> bool {
    |i: int| c.datatype_modules[i].0 == m && c.datatype_names[i] == dt
}

pub open spec fn module_datatype_spec(c: SpecContext, m: int, dt: Seq<char>) -> Option<int> {
    first_index(c.datatype_names.len() as int, module_datatype_pred(c, m, dt))
}

pub open spec fn ctor_in_datatype_pred(c: SpecContext, d: int, ctor: Seq<char>) -> spec_fn(
    int,
) -> bool {
    |i: int| c.constructor_datatypes[i].0 == d && c.constructor_names[i] == ctor
}

pub open spec fn ctor_in_datatype_spec(c: SpecContext, d: int, ctor: Seq<char>) -> Option<int> {
    first_index(c.constructor_names.len() as int, ctor_in_datatype_pred(c, d, ctor))
}

pub open spec fn ctor_called_spec(
    c: SpecContext,
    mname: Seq<Seq<char>>,
    dt: Seq<char>,
    ctor: Seq<char>,
) -> Option<int> {
    match module_called_spec(c, mname) {
        None => None,
        Some(m) => match module_datatype_spec(c, m, dt) {
            None => None,
            Some(d) => ctor_in_datatype_spec(c, d, ctor),
        },
    }
}

pub open spec fn ctor_field_pred(c: SpecContext, ci: int, field: Seq<char>) -> spec_fn(
    int,
) -> bool {
    |k: int| c.constructor_fields[ci][k] == field
}

pub open spec fn ctor_field_spec(c: SpecContext, ci: int, field: Seq<char>) -> Option<int> {
    first_index(c.constructor_fields[ci].len() as int, ctor_field_pred(c, ci, field))
}

// ---------------------------------------------------------------------------
// The canonical tables: what linking a module sequence must produce.
// ---------------------------------------------------------------------------

/// The function names of a module, in listed order.
pub open spec fn fn_names_of(m: SpecModule) -> Seq<Seq<char>> {
    m.functions.map_values(|p: (Seq<char>, Seq<SpecRawInstr>)| p.0)
}

/// The function names of a module in the order their indices are assigned:
/// sorted lexicographically.
pub open spec fn sorted_fn_names_of(m: SpecModule) -> Seq<Seq<char>> {
    fn_names_of(m).sort_by(lex_leq_fn())
}

/// One constructor's row in the tables.
pub struct CtorRec {
    pub datatype: int,
    pub datatype_name: Seq<char>,
    pub name: Seq<char>,
    pub fields: Seq<Seq<char>>,
}

pub open spec fn adt_ctors(adt: (Seq<char>, Seq<SpecVariant>), dt: int) -> Seq<CtorRec> {
    adt.1.map_values(
        |v: SpecVariant|
            CtorRec { datatype: dt, datatype_name: adt.0, name: v.name, fields: v.elements },
    )
}

/// The constructor rows of the first `a` datatypes of a module, with
/// datatype indices starting at `dt_base`.
pub open spec fn ctor_chunk(
    adts: Seq<(Seq<char>, Seq<SpecVariant>)>,
    dt_base: int,
    a: int,
) -> Seq<CtorRec>
    decreases a,
{
    if a <= 0 {
        Seq::empty()
    } else {
        ctor_chunk(adts, dt_base, a - 1) + adt_ctors(adts[a - 1], dt_base + a - 1)
    }
}

pub open spec fn module_ctors(m: SpecModule, dt_base: int) -> Seq<CtorRec> {
    ctor_chunk(m.adts, dt_base, m.adts.len() as int)
}

pub open spec fn empty_context() -> SpecContext {
    SpecContext {
        module_names: Seq::empty(),
        function_modules: Seq::empty(),
        function_module_names: Seq::empty(),
        function_names: Seq::empty(),
        datatype_modules: Seq::empty(),
        datatype_module_names: Seq::empty(),
        datatype_names: Seq::empty(),
        constructor_modules: Seq::empty(),
        constructor_module_names: Seq::empty(),
        constructor_datatypes: Seq::empty(),
        constructor_datatype_names: Seq::empty(),
        constructor_names: Seq::empty(),
        constructor_fields: Seq::empty(),
        strings: Seq::empty(),
    }
}

/// `n` copies of one module index.
pub open spec fn rep_module(n: nat, t: int) -> Seq<ModuleIndex> {
    Seq::new(n, |x: int| ModuleIndex(t as usize))
}

/// `n` copies of one module name.
pub open spec fn rep_name(n: nat, name: Seq<Seq<char>>) -> Seq<Seq<Seq<char>>> {
    Seq::new(n, |x: int| name)
}

/// The datatype names of an ADT list, in listed order.
pub open spec fn adt_names_of(adts: Seq<(Seq<char>, Seq<SpecVariant>)>) -> Seq<Seq<char>> {
    adts.map_values(|p: (Seq<char>, Seq<SpecVariant>)| p.0)
}

/// The datatype-index column of a run of constructor rows.
pub open spec fn col_dt(rows: Seq<CtorRec>) -> Seq<DatatypeIndex> {
    rows.map_values(|r: CtorRec| DatatypeIndex(r.datatype as usize))
}

/// The datatype-name column of a run of constructor rows.
pub open spec fn col_dt_names(rows: Seq<CtorRec>) -> Seq<Seq<char>> {
    rows.map_values(|r: CtorRec| r.datatype_name)
}

/// The constructor-name column of a run of constructor rows.
pub open spec fn col_ctor_names(rows: Seq<CtorRec>) -> Seq<Seq<char>> {
    rows.map_values(|r: CtorRec| r.name)
}

/// The field-name column of a run of constructor rows.
pub open spec fn col_fields(rows: Seq<CtorRec>) -> Seq<Seq<Seq<char>>> {
    rows.map_values(|r: CtorRec| r.fields)
}

/// Extend the tables with module `m` at module index `t`.
pub open spec fn append_module(c: SpecContext, t: int, m: SpecModule) -> SpecContext {
    let ctors = module_ctors(m, c.datatype_names.len() as int);
    SpecContext {
        module_names: c.module_names.push(m.name),
        function_modules: c.function_modules + rep_module(m.functions.len(), t),
        function_module_names: c.function_module_names + rep_name(m.functions.len(), m.name),
        function_names: c.function_names + sorted_fn_names_of(m),
        datatype_modules: c.datatype_modules + rep_module(m.adts.len(), t),
        datatype_module_names: c.datatype_module_names + rep_name(m.adts.len(), m.name),
        datatype_names: c.datatype_names + adt_names_of(m.adts),
        constructor_modules: c.constructor_modules + rep_module(ctors.len(), t),
        constructor_module_names: c.constructor_module_names + rep_name(ctors.len(), m.name),
        constructor_datatypes: c.constructor_datatypes + col_dt(ctors),
        constructor_datatype_names: c.constructor_datatype_names + col_dt_names(ctors),
        constructor_names: c.constructor_names + col_ctor_names(ctors),
        constructor_fields: c.constructor_fields + col_fields(ctors),
        strings: c.strings.push(m.strings),
    }
}

/// The tables that linking `ms` assigns: modules in supplied order, each
/// module's functions in sorted-name order, datatypes in listed order,
/// constructors in variant order.
pub open spec fn spec_context(ms: Seq<SpecModule>) -> SpecContext
    decreases ms.len(),
{
    if ms.len() == 0 {
        empty_context()
    } else {
        append_module(spec_context(ms.drop_last()), ms.len() - 1, ms.last())
    }
}

// ---------------------------------------------------------------------------
// Bytecode resolution.
// ---------------------------------------------------------------------------

/// Resolve one raw instruction of a function of module `cur` against the
/// tables, or `None` if a name does not resolve.
pub open spec fn resolve_instr(c: SpecContext, cur: int, ins: SpecRawInstr) -> Option<SpecInstr> {
    match ins {
        SpecRawInstr::PushInt(n) => Some(SpecInstr::PushInt(n)),
        SpecRawInstr::PushString(i) => Some(
            SpecInstr::PushString(StringTableIndex(ModuleIndex(cur as usize), i)),
        ),
        SpecRawInstr::LoadLocal(i) => Some(SpecInstr::LoadLocal(i)),
        SpecRawInstr::StoreLocal(i) => Some(SpecInstr::StoreLocal(i)),
        SpecRawInstr::LoadReg(i) => Some(SpecInstr::LoadReg(i)),
        SpecRawInstr::StoreReg(i) => Some(SpecInstr::StoreReg(i)),
        SpecRawInstr::Unless(i) => Some(SpecInstr::Unless(i)),
        SpecRawInstr::Jump(i) => Some(SpecInstr::Jump(i)),
        SpecRawInstr::Call(i) => Some(SpecInstr::Call(i)),
        SpecRawInstr::LoadName(mname, f) => if mname == prelude_name() {
            if is_intrinsic_name(f) {
                Some(SpecInstr::LoadIntrinsic(f))
            } else {
                None
            }
        } else {
            match fn_called_spec(c, mname, f) {
                Some(i) => Some(SpecInstr::LoadName(FunctionIndex(i as usize))),
                None => None,
            }
        },
        SpecRawInstr::LoadGlobal(f) => match module_fn_called_spec(c, cur, f) {
            Some(i) => Some(SpecInstr::LoadName(FunctionIndex(i as usize))),
            None => None,
        },
        SpecRawInstr::Instantiate(mname, dt, ct) => match ctor_called_spec(c, mname, dt, ct) {
            Some(i) => Some(SpecInstr::Instantiate(ConstructorIndex(i as usize))),
            None => None,
        },
        SpecRawInstr::IsVariant(mname, dt, ct) => match ctor_called_spec(c, mname, dt, ct) {
            Some(i) => Some(SpecInstr::IsVariant(ConstructorIndex(i as usize))),
            None => None,
        },
        SpecRawInstr::Field(mname, dt, ct, fld) => match ctor_called_spec(c, mname, dt, ct) {
            Some(i) => match ctor_field_spec(c, i, fld) {
                Some(k) => Some(SpecInstr::Field(ConstructorIndex(i as usize), k as usize)),
                None => None,
            },
            None => None,
        },
    }
}

/// Resolve a whole function body, or `None` if any instruction fails.
pub open spec fn resolve_body(c: SpecContext, cur: int, body: Seq<SpecRawInstr>) -> Option<
    Seq<SpecInstr>,
> {
    if forall|i: int| 0 <= i < body.len() ==> (#[trigger] resolve_instr(c, cur, body[i])) is Some {
        Some(Seq::new(body.len(), |i: int| resolve_instr(c, cur, body[i]).unwrap()))
    } else {
        None
    }
}

/// The functions of this name, as a search predicate over a function list.
pub open spec fn fn_pair_pred(
    functions: Seq<(Seq<char>, Seq<SpecRawInstr>)>,
    name: Seq<char>,
) -> spec_fn(int) -> bool {
    |f: int| functions[f].0 == name
}

/// The raw body of the function of `m` called `name` (the first of that
/// name, which is the only one when names are unique).
pub open spec fn fn_body_of(m: SpecModule, name: Seq<char>) -> Seq<SpecRawInstr> {
    match first_index(m.functions.len() as int, fn_pair_pred(m.functions, name)) {
        Some(f) => m.functions[f].1,
        None => Seq::empty(),
    }
}

/// The raw bodies of all functions in the order their indices are assigned,
/// each with its module's index.
pub open spec fn module_bodies(t: int, m: SpecModule) -> Seq<(int, Seq<SpecRawInstr>)> {
    sorted_fn_names_of(m).map_values(|n: Seq<char>| (t, fn_body_of(m, n)))
}

pub open spec fn fn_bodies(ms: Seq<SpecModule>) -> Seq<(int, Seq<SpecRawInstr>)>
    decreases ms.len(),
{
    if ms.len() == 0 {
        Seq::empty()
    } else {
        fn_bodies(ms.drop_last()) + module_bodies(ms.len() - 1, ms.last())
    }
}

// ---------------------------------------------------------------------------
// Validation: when linking succeeds.
// ---------------------------------------------------------------------------

/// Some supplied module is named `name`.
pub open spec fn provided(ms: Seq<SpecModule>, name: Seq<Seq<char>>) -> bool {
    exists|t: int| 0 <= t < ms.len() && ms[t].name == name
}

/// Every declared dependency is a supplied module or `Prelude`.
pub open spec fn deps_ok(ms: Seq<SpecModule>) -> bool {
    forall|t: int, d: int|
        0 <= t < ms.len() && 0 <= d < ms[t].dependencies.len() ==> provided(
            ms,
            #[trigger] ms[t].dependencies[d],
        ) || ms[t].dependencies[d] == prelude_name()
}

pub open spec fn variant_names(vs: Seq<SpecVariant>) -> Seq<Seq<char>> {
    vs.map_values(|v: SpecVariant| v.name)
}

/// A provided datatype satisfies an expectation: same variant-name set, the
/// expected field names sorted, and field-name sequences equal per variant.
pub open spec fn adt_matches(provided_vs: Seq<SpecVariant>, expected: Seq<SpecVariant>) -> bool {
    &&& forall|i: int|
        0 <= i < expected.len() ==> variant_names(provided_vs).contains(
            #[trigger] expected[i].name,
        )
    &&& forall|i: int|
        0 <= i < provided_vs.len() ==> variant_names(expected).contains(
            #[trigger] provided_vs[i].name,
        )
    &&& forall|i: int|
        0 <= i < expected.len() ==> sorted_by(#[trigger] expected[i].elements, lex_leq_fn())
    &&& forall|i: int|
        0 <= i < expected.len() ==> match first_index(
            provided_vs.len() as int,
            variant_name_pred(provided_vs, expected[i].name),
        ) {
            Some(w) => provided_vs[w].elements == #[trigger] expected[i].elements,
            None => false,
        }
}

/// The modules of this name, as a search predicate over `ms`.
pub open spec fn mod_name_pred(ms: Seq<SpecModule>, name: Seq<Seq<char>>) -> spec_fn(int) -> bool {
    |t: int| ms[t].name == name
}

/// The datatypes of this name, as a search predicate over an ADT list.
pub open spec fn adt_name_pred(
    adts: Seq<(Seq<char>, Seq<SpecVariant>)>,
    name: Seq<char>,
) -> spec_fn(int) -> bool {
    |a: int| adts[a].0 == name
}

/// The variants of this name, as a search predicate over a variant list.
pub open spec fn variant_name_pred(vs: Seq<SpecVariant>, name: Seq<char>) -> spec_fn(int) -> bool {
    |w: int| vs[w].name == name
}

/// An expected-ADT declaration holds of the supplied modules.
pub open spec fn expected_adt_ok(ms: Seq<SpecModule>, e: SpecExpectedAdt) -> bool {
    match first_index(ms.len() as int, mod_name_pred(ms, e.module)) {
        None => false,
        Some(t) => match first_index(ms[t].adts.len() as int, adt_name_pred(ms[t].adts, e.name)) {
            None => false,
            Some(a) => adt_matches(ms[t].adts[a].1, e.variants),
        },
    }
}

pub open spec fn adts_agree(ms: Seq<SpecModule>) -> bool {
    forall|t: int, e: int|
        0 <= t < ms.len() && 0 <= e < ms[t].expected_adts.len() ==> expected_adt_ok(
            ms,
            #[trigger] ms[t].expected_adts[e],
        )
}

/// Every provided variant's field names are sorted.
pub open spec fn provided_elements_sorted(ms: Seq<SpecModule>) -> bool {
    forall|t: int, a: int, v: int|
        0 <= t < ms.len() && 0 <= a < ms[t].adts.len() && 0 <= v < ms[t].adts[a].1.len()
            ==> sorted_by(#[trigger] ms[t].adts[a].1[v].elements, lex_leq_fn())
}

/// Every instruction of every function resolves against the tables.
pub open spec fn resolvable(ms: Seq<SpecModule>) -> bool {
    forall|t: int, f: int|
        0 <= t < ms.len() && 0 <= f < ms[t].functions.len() ==> resolve_body(
            spec_context(ms),
            t,
            #[trigger] ms[t].functions[f].1,
        ) is Some
}

/// Exactly when linking succeeds.
pub open spec fn wf_link(ms: Seq<SpecModule>) -> bool {
    &&& deps_ok(ms)
    &&& adts_agree(ms)
    &&& provided_elements_sorted(ms)
    &&& resolvable(ms)
}

/// Function names are unique within each module (they come from a mapping).
pub open spec fn fn_names_unique(ms: Seq<SpecModule>) -> bool {
    forall|t: int| 0 <= t < ms.len() ==> (#[trigger] fn_names_of(ms[t])).no_duplicates()
}

/// What `module_called_spec` returns: the first module of that name.
pub proof fn lemma_module_called(c: SpecContext, name: Seq<Seq<char>>)
    ensures
        match module_called_spec(c, name) {
            Some(i) => 0 <= i < c.module_names.len() && c.module_names[i] == name && forall|k: int|
                0 <= k < i ==> c.module_names[k] != name,
            None => forall|k: int| 0 <= k < c.module_names.len() ==> c.module_names[k] != name,
        },
{
    let p = module_name_pred(c, name);
    crate::seqs::lemma_first_index(c.module_names.len() as int, p);
    match first_index(c.module_names.len() as int, p) {
        Some(i) => {
            assert(p(i));
            assert forall|k: int| 0 <= k < i implies c.module_names[k] != name by {
                assert(!p(k));
            }
        },
        None => {
            assert forall|k: int| 0 <= k < c.module_names.len() implies c.module_names[k]
                != name by {
                assert(!p(k));
            }
        },
    }
}

pub proof fn lemma_module_fn_called(c: SpecContext, m: int, name: Seq<char>)
    ensures
        match module_fn_called_spec(c, m, name) {
            Some(i) => 0 <= i < c.function_names.len() && c.function_modules[i].0 == m
                && c.function_names[i] == name && forall|k: int|
                0 <= k < i ==> !(c.function_modules[k].0 == m && c.function_names[k] == name),
            None => forall|k: int|
                0 <= k < c.function_names.len() ==> !(c.function_modules[k].0 == m
                    && c.function_names[k] == name),
        },
{
    let p = module_fn_pred(c, m, name);
    crate::seqs::lemma_first_index(c.function_names.len() as int, p);
    match first_index(c.function_names.len() as int, p) {
        Some(i) => {
            assert(p(i));
            assert forall|k: int|
                0 <= k < i implies !(c.function_modules[k].0 == m && c.function_names[k]
                == name) by {
                assert(!p(k));
            }
        },
        None => {
            assert forall|k: int|
                0 <= k < c.function_names.len() implies !(c.function_modules[k].0 == m
                && c.function_names[k] == name) by {
                assert(!p(k));
            }
        },
    }
}

pub proof fn lemma_fn_called(c: SpecContext, mname: Seq<Seq<char>>, name: Seq<char>)
    ensures
        match fn_called_spec(c, mname, name) {
            Some(i) => 0 <= i < c.function_names.len() && c.function_module_names[i] == mname
                && c.function_names[i] == name && forall|k: int|
                0 <= k < i ==> !(c.function_module_names[k] == mname && c.function_names[k]
                    == name),
            None => forall|k: int|
                0 <= k < c.function_names.len() ==> !(c.function_module_names[k] == mname
                    && c.function_names[k] == name),
        },
{
    let p = fn_name_pred(c, mname, name);
    crate::seqs::lemma_first_index(c.function_names.len() as int, p);
    match first_index(c.function_names.len() as int, p) {
        Some(i) => {
            assert(p(i));
            assert forall|k: int|
                0 <= k < i implies !(c.function_module_names[k] == mname && c.function_names[k]
                == name) by {
                assert(!p(k));
            }
        },
        None => {
            assert forall|k: int|
                0 <= k < c.function_names.len() implies !(c.function_module_names[k] == mname
                && c.function_names[k] == name) by {
                assert(!p(k));
            }
        },
    }
}

pub proof fn lemma_module_datatype(c: SpecContext, m: int, dt: Seq<char>)
    ensures
        match module_datatype_spec(c, m, dt) {
            Some(i) => 0 <= i < c.datatype_names.len() && c.datatype_modules[i].0 == m
                && c.datatype_names[i] == dt && forall|k: int|
                0 <= k < i ==> !(c.datatype_modules[k].0 == m && c.datatype_names[k] == dt),
            None => forall|k: int|
                0 <= k < c.datatype_names.len() ==> !(c.datatype_modules[k].0 == m
                    && c.datatype_names[k] == dt),
        },
{
    let p = module_datatype_pred(c, m, dt);
    crate::seqs::lemma_first_index(c.datatype_names.len() as int, p);
    match first_index(c.datatype_names.len() as int, p) {
        Some(i) => {
            assert(p(i));
            assert forall|k: int|
                0 <= k < i implies !(c.datatype_modules[k].0 == m && c.datatype_names[k]
                == dt) by {
                assert(!p(k));
            }
        },
        None => {
            assert forall|k: int|
                0 <= k < c.datatype_names.len() implies !(c.datatype_modules[k].0 == m
                && c.datatype_names[k] == dt) by {
                assert(!p(k));
            }
        },
    }
}

pub proof fn lemma_ctor_in_datatype(c: SpecContext, d: int, ctor: Seq<char>)
    ensures
        match ctor_in_datatype_spec(c, d, ctor) {
            Some(i) => 0 <= i < c.constructor_names.len() && c.constructor_datatypes[i].0 == d
                && c.constructor_names[i] == ctor && forall|k: int|
                0 <= k < i ==> !(c.constructor_datatypes[k].0 == d && c.constructor_names[k]
                    == ctor),
            None => forall|k: int|
                0 <= k < c.constructor_names.len() ==> !(c.constructor_datatypes[k].0 == d
                    && c.constructor_names[k] == ctor),
        },
{
    let p = ctor_in_datatype_pred(c, d, ctor);
    crate::seqs::lemma_first_index(c.constructor_names.len() as int, p);
    match first_index(c.constructor_names.len() as int, p) {
        Some(i) => {
            assert(p(i));
            assert forall|k: int|
                0 <= k < i implies !(c.constructor_datatypes[k].0 == d && c.constructor_names[k]
                == ctor) by {
                assert(!p(k));
            }
        },
        None => {
            assert forall|k: int|
                0 <= k < c.constructor_names.len() implies !(c.constructor_datatypes[k].0 == d
                && c.constructor_names[k] == ctor) by {
                assert(!p(k));
            }
        },
    }
}

pub proof fn lemma_ctor_field(c: SpecContext, ci: int, field: Seq<char>)
    ensures
        match ctor_field_spec(c, ci, field) {
            Some(k) => 0 <= k < c.constructor_fields[ci].len() && c.constructor_fields[ci][k]
                == field && forall|j: int|
                0 <= j < k ==> c.constructor_fields[ci][j] != field,
            None => forall|j: int|
                0 <= j < c.constructor_fields[ci].len() ==> c.constructor_fields[ci][j] != field,
        },
{
    let p = ctor_field_pred(c, ci, field);
    crate::seqs::lemma_first_index(c.constructor_fields[ci].len() as int, p);
    match first_index(c.constructor_fields[ci].len() as int, p) {
        Some(k) => {
            assert(p(k));
            assert forall|j: int| 0 <= j < k implies c.constructor_fields[ci][j] != field by {
                assert(!p(j));
            }
        },
        None => {
            assert forall|j: int|
                0 <= j < c.constructor_fields[ci].len() implies c.constructor_fields[ci][j]
                != field by {
                assert(!p(j));
            }
        },
    }
}

/// A name path joined with `::` separators.
pub open spec fn join_name(parts: Seq<Seq<char>>) -> Seq<char>
    decreases parts.len(),
{
    if parts.len() == 0 {
        Seq::empty()
    } else if parts.len() == 1 {
        parts[0]
    } else {
        parts[0] + "::"@ + join_name(parts.drop_first())
    }
}

pub proof fn lemma_join_name_push(parts: Seq<Seq<char>>, x: Seq<char>)
    requires
        parts.len() >= 1,
    ensures
        join_name(parts.push(x)) == join_name(parts) + "::"@ + x,
    decreases parts.len(),
{
    if parts.len() == 1 {
        assert(parts.push(x)[0] == parts[0]);
        assert(parts.push(x).drop_first() =~= seq![x]);
        assert(join_name(seq![x]) == x);
        assert(join_name(parts.push(x)) == parts[0] + "::"@ + x);
    } else {
        assert(parts.push(x).drop_first() =~= parts.drop_first().push(x));
        lemma_join_name_push(parts.drop_first(), x);
        assert(join_name(parts.push(x)) == parts[0] + "::"@ + (join_name(parts.drop_first())
            + "::"@ + x));
        assert(parts[0] + "::"@ + (join_name(parts.drop_first()) + "::"@ + x) =~= (parts[0]
            + "::"@ + join_name(parts.drop_first())) + "::"@ + x);
    }
}

/// Join a name path with `::` separators.
pub fn join_path(parts: &Vec<String>) -> (r: String)
    ensures
        r@ == join_name(parts.deep_view()),
{
    let ghost dv = parts.deep_view();
    let mut s = String::new();
    let mut i: usize = 0;
    while i < parts.len()
        invariant
            i <= parts@.len(),
            dv == parts.deep_view(),
            dv.len() == parts@.len(),
            s@ == join_name(dv.take(i as int)),
        decreases parts@.len() - i,
    {
        if i > 0 {
            s.append("::");
        }
        s.append(parts[i].as_str());
        proof {
            assert(dv[i as int] == parts@[i as int]@);
            assert(dv.take(i + 1) =~= dv.take(i as int).push(dv[i as int]));
            if i == 0 {
                assert(dv.take(1)[0] == dv[0]);
                assert(dv.take(1).len() == 1);
                assert(s@ =~= join_name(dv.take(1)));
            } else {
                lemma_join_name_push(dv.take(i as int), dv[i as int]);
            }
        }
        i = i + 1;
    }
    proof {
        assert(dv.take(parts@.len() as int) =~= dv);
    }
    s
}

/// Whether `n` is the name of a `Prelude` intrinsic.
pub fn is_intrinsic(n: &String) -> (r: bool)
    ensures
        r == is_intrinsic_name(n@),
{
    str_eq(n.as_str(), "print") || str_eq(n.as_str(), "+") || str_eq(n.as_str(), "-") || str_eq(
        n.as_str(),
        "*",
    ) || str_eq(n.as_str(), "/") || str_eq(n.as_str(), ">") || str_eq(n.as_str(), "<") || str_eq(
        n.as_str(),
        ">=",
    ) || str_eq(n.as_str(), "<=") || str_eq(n.as_str(), "==") || str_eq(n.as_str(), "!=")
}

impl Context {
    /// The index of the first module of this name, if any.
    pub fn module_called(&self, name: &Vec<String>) -> (r: Option<ModuleIndex>)
        ensures
            match r {
                Some(mi) => module_called_spec(self@, name.deep_view()) == Some(mi.0 as int),
                None => module_called_spec(self@, name.deep_view()) is None,
            },
    {
        let ghost c = self@;
        let ghost target = name.deep_view();
        let mut t: usize = 0;
        while t < self.module_names.len()
            invariant
                t <= self.module_names@.len(),
                c == self@,
                target == name.deep_view(),
                c.module_names.len() == self.module_names@.len(),
                forall|k: int| 0 <= k < t ==> c.module_names[k] != target,
            decreases self.module_names@.len() - t,
        {
            if names_eq(&self.module_names[t], name) {
                proof {
                    let p = module_name_pred(c, target);
                    assert(c.module_names[t as int] == self.module_names@[t as int].deep_view());
                    assert(p(t as int));
                    assert forall|k: int| 0 <= k < t implies !(#[trigger] p(k)) by {
                        assert(c.module_names[k] != target);
                    }
                    crate::seqs::lemma_first_index_is(c.module_names.len() as int, p, t as int);
                }
                return Some(ModuleIndex(t));
            }
            proof {
                assert(c.module_names[t as int] == self.module_names@[t as int].deep_view());
            }
            t = t + 1;
        }
        proof {
            let p = module_name_pred(c, target);
            assert forall|k: int| 0 <= k < c.module_names.len() implies !(#[trigger] p(k)) by {
                assert(c.module_names[k] != target);
            }
            crate::seqs::lemma_first_index_none(c.module_names.len() as int, p);
        }
        None
    }

    /// The index of the first function of `module` with this name, if any.
    pub fn module_fn_called(&self, module: ModuleIndex, name: &str) -> (r: Option<FunctionIndex>)
        requires
            context_tables_wf(self@),
        ensures
            match r {
                Some(fi) => module_fn_called_spec(self@, module.0 as int, name@) == Some(
                    fi.0 as int,
                ),
                None => module_fn_called_spec(self@, module.0 as int, name@) is None,
            },
    {
        let ghost c = self@;
        let mut i: usize = 0;
        while i < self.function_names.len()
            invariant
                i <= self.function_names@.len(),
                c == self@,
                c.function_names.len() == self.function_names@.len(),
                c.function_modules.len() == self.function_modules@.len(),
                self.function_modules@.len() == self.function_names@.len(),
                forall|k: int|
                    0 <= k < i ==> !(c.function_modules[k].0 == module.0 && c.function_names[k]
                        == name@),
            decreases self.function_names@.len() - i,
        {
            proof {
                assert(c.function_names[i as int] == self.function_names@[i as int]@);
                assert(c.function_modules[i as int] == self.function_modules@[i as int]);
            }
            if self.function_modules[i].0 == module.0 && str_eq(
                self.function_names[i].as_str(),
                name,
            ) {
                proof {
                    let p = module_fn_pred(c, module.0 as int, name@);
                    assert(p(i as int));
                    assert forall|k: int| 0 <= k < i implies !(#[trigger] p(k)) by {
                        assert(!(c.function_modules[k].0 == module.0 && c.function_names[k]
                            == name@));
                    }
                    crate::seqs::lemma_first_index_is(c.function_names.len() as int, p, i as int);
                }
                return Some(FunctionIndex(i));
            }
            i = i + 1;
        }
        proof {
            let p = module_fn_pred(c, module.0 as int, name@);
            assert forall|k: int| 0 <= k < c.function_names.len() implies !(#[trigger] p(k)) by {
                assert(!(c.function_modules[k].0 == module.0 && c.function_names[k] == name@));
            }
            crate::seqs::lemma_first_index_none(c.function_names.len() as int, p);
        }
        None
    }

    /// The index of the first function whose module name and function name
    /// both match, if any.
    pub fn fn_called(&self, mname: &Vec<String>, name: &String) -> (r: Option<FunctionIndex>)
        requires
            context_tables_wf(self@),
        ensures
            match r {
                Some(fi) => fn_called_spec(self@, mname.deep_view(), name@) == Some(fi.0 as int),
                None => fn_called_spec(self@, mname.deep_view(), name@) is None,
            },
    {
        let ghost c = self@;
        let ghost target = mname.deep_view();
        let mut i: usize = 0;
        while i < self.function_names.len()
            invariant
                i <= self.function_names@.len(),
                c == self@,
                target == mname.deep_view(),
                c.function_names.len() == self.function_names@.len(),
                self.function_module_names@.len() == self.function_names@.len(),
                forall|k: int|
                    0 <= k < i ==> !(c.function_module_names[k] == target && c.function_names[k]
                        == name@),
            decreases self.function_names@.len() - i,
        {
            proof {
                assert(c.function_names[i as int] == self.function_names@[i as int]@);
                assert(c.function_module_names[i as int] == self.function_module_names@[
                    i as int].deep_view());
            }
            if names_eq(&self.function_module_names[i], mname) && str_eq(
                self.function_names[i].as_str(),
                name.as_str(),
            ) {
                proof {
                    let p = fn_name_pred(c, target, name@);
                    assert(p(i as int));
                    assert forall|k: int| 0 <= k < i implies !(#[trigger] p(k)) by {
                        assert(!(c.function_module_names[k] == target && c.function_names[k]
                            == name@));
                    }
                    crate::seqs::lemma_first_index_is(c.function_names.len() as int, p, i as int);
                }
                return Some(FunctionIndex(i));
            }
            i = i + 1;
        }
        proof {
            let p = fn_name_pred(c, target, name@);
            assert forall|k: int| 0 <= k < c.function_names.len() implies !(#[trigger] p(k)) by {
                assert(!(c.function_module_names[k] == target && c.function_names[k] == name@));
            }
            crate::seqs::lemma_first_index_none(c.function_names.len() as int, p);
        }
        None
    }

    /// The qualified `module::path::name` rendering of a function's name.
    pub fn fn_qualified_name(&self, idx: FunctionIndex) -> (r: String)
        requires
            idx.0 < self@.function_names.len(),
            idx.0 < self@.function_module_names.len(),
        ensures
            r@ == join_name(self@.function_module_names[idx.0 as int]) + "::"@
                + self@.function_names[idx.0 as int],
    {
        let mut s = join_path(&self.function_module_names[idx.0]);
        s.append("::");
        s.append(self.function_names[idx.0].as_str());
        proof {
            assert(self@.function_module_names[idx.0 as int] == self.function_module_names@[
                idx.0 as int].deep_view());
            assert(self@.function_names[idx.0 as int] == self.function_names@[idx.0 as int]@);
        }
        s
    }

    /// The index of the first datatype of `module` with this name, if any.
    pub fn module_datatype(&self, module: ModuleIndex, datatype: &String) -> (r: Option<
        DatatypeIndex,
    >)
        requires
            context_tables_wf(self@),
        ensures
            match r {
                Some(di) => module_datatype_spec(self@, module.0 as int, datatype@) == Some(
                    di.0 as int,
                ),
                None => module_datatype_spec(self@, module.0 as int, datatype@) is None,
            },
    {
        let ghost c = self@;
        let mut i: usize = 0;
        while i < self.datatype_names.len()
            invariant
                i <= self.datatype_names@.len(),
                c == self@,
                c.datatype_names.len() == self.datatype_names@.len(),
                self.datatype_modules@.len() == self.datatype_names@.len(),
                forall|k: int|
                    0 <= k < i ==> !(c.datatype_modules[k].0 == module.0 && c.datatype_names[k]
                        == datatype@),
            decreases self.datatype_names@.len() - i,
        {
            proof {
                assert(c.datatype_names[i as int] == self.datatype_names@[i as int]@);
                assert(c.datatype_modules[i as int] == self.datatype_modules@[i as int]);
            }
            if self.datatype_modules[i].0 == module.0 && str_eq(
                self.datatype_names[i].as_str(),
                datatype.as_str(),
            ) {
                proof {
                    let p = module_datatype_pred(c, module.0 as int, datatype@);
                    assert(p(i as int));
                    assert forall|k: int| 0 <= k < i implies !(#[trigger] p(k)) by {
                        assert(!(c.datatype_modules[k].0 == module.0 && c.datatype_names[k]
                            == datatype@));
                    }
                    crate::seqs::lemma_first_index_is(c.datatype_names.len() as int, p, i as int);
                }
                return Some(DatatypeIndex(i));
            }
            i = i + 1;
        }
        proof {
            let p = module_datatype_pred(c, module.0 as int, datatype@);
            assert forall|k: int| 0 <= k < c.datatype_names.len() implies !(#[trigger] p(k)) by {
                assert(!(c.datatype_modules[k].0 == module.0 && c.datatype_names[k] == datatype@));
            }
            crate::seqs::lemma_first_index_none(c.datatype_names.len() as int, p);
        }
        None
    }

    /// The qualified `module::datatype::ctor` rendering of a constructor.
    pub fn ctor_qualified_name(&self, idx: ConstructorIndex) -> (r: String)
        requires
            idx.0 < self@.constructor_names.len(),
            idx.0 < self@.constructor_module_names.len(),
            idx.0 < self@.constructor_datatype_names.len(),
        ensures
            r@ == join_name(self@.constructor_module_names[idx.0 as int]) + "::"@
                + self@.constructor_datatype_names[idx.0 as int] + "::"@
                + self@.constructor_names[idx.0 as int],
    {
        let mut s = join_path(&self.constructor_module_names[idx.0]);
        s.append("::");
        s.append(self.constructor_datatype_names[idx.0].as_str());
        s.append("::");
        s.append(self.constructor_names[idx.0].as_str());
        proof {
            assert(self@.constructor_module_names[idx.0 as int] == self.constructor_module_names@[
                idx.0 as int].deep_view());
            assert(self@.constructor_datatype_names[idx.0 as int]
                == self.constructor_datatype_names@[idx.0 as int]@);
            assert(self@.constructor_names[idx.0 as int] == self.constructor_names@[idx.0 as int]@);
        }
        s
    }

    /// The position of `field` in the constructor's sorted field names.
    pub fn ctor_field(&self, idx: ConstructorIndex, field: &String) -> (r: Option<usize>)
        requires
            idx.0 < self@.constructor_fields.len(),
        ensures
            match r {
                Some(k) => ctor_field_spec(self@, idx.0 as int, field@) == Some(k as int),
                None => ctor_field_spec(self@, idx.0 as int, field@) is None,
            },
    {
        let ghost c = self@;
        let fields = &self.constructor_fields[idx.0];
        proof {
            assert(c.constructor_fields[idx.0 as int] == self.constructor_fields@[
                idx.0 as int].deep_view());
        }
        let mut k: usize = 0;
        while k < fields.len()
            invariant
                k <= fields@.len(),
                c == self@,
                fields.deep_view() == c.constructor_fields[idx.0 as int],
                fields@.len() == c.constructor_fields[idx.0 as int].len(),
                idx.0 < c.constructor_fields.len(),
                forall|j: int| 0 <= j < k ==> c.constructor_fields[idx.0 as int][j] != field@,
            decreases fields@.len() - k,
        {
            proof {
                assert(c.constructor_fields[idx.0 as int][k as int] == fields@[k as int]@);
            }
            if str_eq(fields[k].as_str(), field.as_str()) {
                proof {
                    let p = ctor_field_pred(c, idx.0 as int, field@);
                    assert(p(k as int));
                    assert forall|j: int| 0 <= j < k implies !(#[trigger] p(j)) by {
                        assert(c.constructor_fields[idx.0 as int][j] != field@);
                    }
                    crate::seqs::lemma_first_index_is(
                        c.constructor_fields[idx.0 as int].len() as int,
                        p,
                        k as int,
                    );
                }
                return Some(k);
            }
            k = k + 1;
        }
        proof {
            let p = ctor_field_pred(c, idx.0 as int, field@);
            assert forall|j: int|
                0 <= j < c.constructor_fields[idx.0 as int].len() implies !(#[trigger] p(j)) by {
                assert(c.constructor_fields[idx.0 as int][j] != field@);
            }
            crate::seqs::lemma_first_index_none(c.constructor_fields[idx.0 as int].len() as int, p);
        }
        None
    }

    /// How many fields the constructor has.
    pub fn ctor_fields_nbr(&self, idx: ConstructorIndex) -> (r: usize)
        requires
            idx.0 < self@.constructor_fields.len(),
        ensures
            r == self@.constructor_fields[idx.0 as int].len(),
    {
        proof {
            assert(self@.constructor_fields[idx.0 as int] == self.constructor_fields@[
                idx.0 as int].deep_view());
        }
        self.constructor_fields[idx.0].len()
    }

    /// Resolve a qualified constructor name: module, then datatype in that
    /// module, then constructor in that datatype.
    pub fn ctor_called(&self, module: &bc::ModuleName, datatype: &String, ctor: &String) -> (r:
        Option<ConstructorIndex>)
        requires
            context_tables_wf(self@),
        ensures
            match r {
                Some(ci) => ctor_called_spec(self@, module.deep_view(), datatype@, ctor@) == Some(
                    ci.0 as int,
                ),
                None => ctor_called_spec(self@, module.deep_view(), datatype@, ctor@) is None,
            },
    {
        let ghost c = self@;
        let module_idx = match self.module_called(&module.module) {
            Some(m) => m,
            None => {
                return None;
            },
        };
        let datatype_idx = match self.module_datatype(module_idx, datatype) {
            Some(d) => d,
            None => {
                return None;
            },
        };
        let mut i: usize = 0;
        while i < self.constructor_names.len()
            invariant
                i <= self.constructor_names@.len(),
                c == self@,
                c.constructor_names.len() == self.constructor_names@.len(),
                self.constructor_datatypes@.len() == self.constructor_names@.len(),
                module_called_spec(c, module.deep_view()) == Some(module_idx.0 as int),
                module_datatype_spec(c, module_idx.0 as int, datatype@) == Some(
                    datatype_idx.0 as int,
                ),
                forall|k: int|
                    0 <= k < i ==> !(c.constructor_datatypes[k].0 == datatype_idx.0
                        && c.constructor_names[k] == ctor@),
            decreases self.constructor_names@.len() - i,
        {
            proof {
                assert(c.constructor_names[i as int] == self.constructor_names@[i as int]@);
                assert(c.constructor_datatypes[i as int] == self.constructor_datatypes@[i as int]);
            }
            if self.constructor_datatypes[i].0 == datatype_idx.0 && str_eq(
                self.constructor_names[i].as_str(),
                ctor.as_str(),
            ) {
                proof {
                    let p = ctor_in_datatype_pred(c, datatype_idx.0 as int, ctor@);
                    assert(p(i as int));
                    assert forall|k: int| 0 <= k < i implies !(#[trigger] p(k)) by {
                        assert(!(c.constructor_datatypes[k].0 == datatype_idx.0
                            && c.constructor_names[k] == ctor@));
                    }
                    crate::seqs::lemma_first_index_is(
                        c.constructor_names.len() as int,
                        p,
                        i as int,
                    );
                }
                return Some(ConstructorIndex(i));
            }
            i = i + 1;
        }
        proof {
            let p = ctor_in_datatype_pred(c, datatype_idx.0 as int, ctor@);
            assert forall|k: int| 0 <= k < c.constructor_names.len() implies !(#[trigger] p(k)) by {
                assert(!(c.constructor_datatypes[k].0 == datatype_idx.0 && c.constructor_names[k]
                    == ctor@));
            }
            crate::seqs::lemma_first_index_none(c.constructor_names.len() as int, p);
        }
        None
    }

    /// How many constructors the tables hold.
    pub fn ctors_len(&self) -> (r: usize)
        ensures
            r == self@.constructor_fields.len(),
    {
        proof {
            assert(self@.constructor_fields.len() == self.constructor_fields@.len());
        }
        self.constructor_fields.len()
    }

    /// How many per-module string tables there are.
    pub fn strings_len(&self) -> (r: usize)
        ensures
            r == self@.strings.len(),
    {
        proof {
            assert(self@.strings.len() == self.strings@.len());
        }
        self.strings.len()
    }

    /// How many literals one module's string table holds.
    pub fn module_strings_len(&self, m: usize) -> (r: usize)
        requires
            m < self@.strings.len(),
        ensures
            r == self@.strings[m as int].len(),
    {
        proof {
            assert(self@.strings[m as int] == self.strings@[m as int].deep_view());
        }
        self.strings[m].len()
    }

    /// The string literal at a string-table address.
    pub fn string(&self, idx: StringTableIndex) -> (r: &String)
        requires
            idx.0.0 < self@.strings.len(),
            idx.1 < self@.strings[idx.0.0 as int].len(),
        ensures
            r@ == self@.strings[idx.0.0 as int][idx.1 as int],
    {
        proof {
            assert(self@.strings[idx.0.0 as int] == self.strings@[idx.0.0 as int].deep_view());
            assert(self@.strings[idx.0.0 as int][idx.1 as int] == self.strings@[idx.0.0 as int]@[
                idx.1 as int]@);
        }
        &self.strings[idx.0.0][idx.1]
    }
}

/// The tables' parallel arrays have matching lengths and every stored
/// cross-reference lands inside its table: the assigned indices of each
/// entity kind are exactly the positions `0 .. N-1`.
pub open spec fn context_tables_wf(c: SpecContext) -> bool {
    &&& c.function_modules.len() == c.function_names.len()
    &&& c.function_module_names.len() == c.function_names.len()
    &&& c.datatype_modules.len() == c.datatype_names.len()
    &&& c.datatype_module_names.len() == c.datatype_names.len()
    &&& c.constructor_modules.len() == c.constructor_names.len()
    &&& c.constructor_module_names.len() == c.constructor_names.len()
    &&& c.constructor_datatypes.len() == c.constructor_names.len()
    &&& c.constructor_datatype_names.len() == c.constructor_names.len()
    &&& c.constructor_fields.len() == c.constructor_names.len()
    &&& c.strings.len() == c.module_names.len()
    &&& forall|k: int|
        0 <= k < c.function_modules.len() ==> (#[trigger] c.function_modules[k]).0
            < c.module_names.len()
    &&& forall|k: int|
        0 <= k < c.datatype_modules.len() ==> (#[trigger] c.datatype_modules[k]).0
            < c.module_names.len()
    &&& forall|k: int|
        0 <= k < c.constructor_modules.len() ==> (#[trigger] c.constructor_modules[k]).0
            < c.module_names.len()
    &&& forall|k: int|
        0 <= k < c.constructor_datatypes.len() ==> (#[trigger] c.constructor_datatypes[k]).0
            < c.datatype_names.len()
}

/// Every constructor row of the first `a` datatypes carries a datatype
/// index in `[dt_base, dt_base + a)`.
pub proof fn lemma_ctor_chunk_range(adts: Seq<(Seq<char>, Seq<SpecVariant>)>, dt_base: int, a: int)
    requires
        a >= 0,
    ensures
        forall|x: int|
            0 <= x < ctor_chunk(adts, dt_base, a).len() ==> dt_base <= (#[trigger] ctor_chunk(
                adts,
                dt_base,
                a,
            )[x]).datatype < dt_base + a,
    decreases a,
{
    if a > 0 {
        lemma_ctor_chunk_range(adts, dt_base, a - 1);
        let prev = ctor_chunk(adts, dt_base, a - 1);
        let tail = adt_ctors(adts[a - 1], dt_base + a - 1);
        assert(forall|x: int| 0 <= x < tail.len() ==> (#[trigger] tail[x]).datatype == dt_base + a
            - 1);
        assert forall|x: int|
            0 <= x < ctor_chunk(adts, dt_base, a).len() implies dt_base <= (#[trigger] ctor_chunk(
            adts,
            dt_base,
            a,
        )[x]).datatype < dt_base + a by {
            if x < prev.len() {
                assert(ctor_chunk(adts, dt_base, a)[x] == prev[x]);
            } else {
                assert(ctor_chunk(adts, dt_base, a)[x] == tail[x - prev.len()]);
            }
        }
    }
}

/// The canonical tables are well formed, and cover one module-name and one
/// string-table row per module.
pub proof fn lemma_spec_context_wf(ms: Seq<SpecModule>)
    ensures
        context_tables_wf(spec_context(ms)),
        spec_context(ms).module_names.len() == ms.len(),
        spec_context(ms).module_names =~= ms.map_values(|m: SpecModule| m.name),
        spec_context(ms).strings =~= ms.map_values(|m: SpecModule| m.strings),
    decreases ms.len(),
{
    broadcast use vstd::seq_lib::group_to_multiset_ensures;

    if ms.len() > 0 {
        lemma_spec_context_wf(ms.drop_last());
        let c = spec_context(ms.drop_last());
        let t = ms.len() - 1;
        let m = ms.last();
        let cc = spec_context(ms);
        crate::lex::lemma_lex_total_ordering();
        fn_names_of(m).lemma_sort_by_ensures(crate::lex::lex_leq_fn());
        assert(fn_names_of(m).to_multiset() =~= sorted_fn_names_of(m).to_multiset());
        assert(fn_names_of(m).to_multiset().len() == fn_names_of(m).len());
        assert(sorted_fn_names_of(m).to_multiset().len() == sorted_fn_names_of(m).len());
        assert(sorted_fn_names_of(m).len() == m.functions.len());
        lemma_ctor_chunk_range(m.adts, c.datatype_names.len() as int, m.adts.len() as int);
        let ctors = module_ctors(m, c.datatype_names.len() as int);
        assert forall|k: int|
            0 <= k < cc.function_modules.len() implies (#[trigger] cc.function_modules[k]).0
            < cc.module_names.len() by {
            if k < c.function_modules.len() {
                assert(cc.function_modules[k] == c.function_modules[k]);
            } else {
                assert(cc.function_modules[k] == ModuleIndex(t as usize));
            }
        }
        assert forall|k: int|
            0 <= k < cc.datatype_modules.len() implies (#[trigger] cc.datatype_modules[k]).0
            < cc.module_names.len() by {
            if k < c.datatype_modules.len() {
                assert(cc.datatype_modules[k] == c.datatype_modules[k]);
            } else {
                assert(cc.datatype_modules[k] == ModuleIndex(t as usize));
            }
        }
        assert forall|k: int|
            0 <= k < cc.constructor_modules.len() implies (#[trigger] cc.constructor_modules[k]).0
            < cc.module_names.len() by {
            if k < c.constructor_modules.len() {
                assert(cc.constructor_modules[k] == c.constructor_modules[k]);
            } else {
                assert(cc.constructor_modules[k] == ModuleIndex(t as usize));
            }
        }
        assert forall|k: int|
            0 <= k < cc.constructor_datatypes.len() implies (
        #[trigger] cc.constructor_datatypes[k]).0 < cc.datatype_names.len() by {
            if k < c.constructor_datatypes.len() {
                assert(cc.constructor_datatypes[k] == c.constructor_datatypes[k]);
            } else {
                let x = k - c.constructor_datatypes.len();
                assert(cc.constructor_datatypes[k] == DatatypeIndex(ctors[x].datatype as usize));
                assert(c.datatype_names.len() <= ctors[x].datatype < c.datatype_names.len()
                    + m.adts.len());
            }
        }
        let names_all = ms.map_values(|mm: SpecModule| mm.name);
        let names_head = ms.drop_last().map_values(|mm: SpecModule| mm.name);
        assert(spec_context(ms).module_names =~= names_all) by {
            assert(forall|k: int| 0 <= k < t ==> names_head[k] == #[trigger] names_all[k]);
        }
        let strings_all = ms.map_values(|mm: SpecModule| mm.strings);
        let strings_head = ms.drop_last().map_values(|mm: SpecModule| mm.strings);
        assert(spec_context(ms).strings =~= strings_all) by {
            assert(forall|k: int| 0 <= k < t ==> strings_head[k] == #[trigger] strings_all[k]);
        }
    }
}

/// Building the tables one module at a time follows the canonical
/// definition.
pub proof fn lemma_spec_context_take_step(ms: Seq<SpecModule>, t: int)
    requires
        0 <= t < ms.len(),
    ensures
        spec_context(ms.take(t + 1)) == append_module(spec_context(ms.take(t)), t, ms[t]),
{
    assert(ms.take(t + 1).drop_last() =~= ms.take(t));
    assert(ms.take(t + 1).last() == ms[t]);
}

pub proof fn lemma_fn_bodies_take_step(ms: Seq<SpecModule>, t: int)
    requires
        0 <= t < ms.len(),
    ensures
        fn_bodies(ms.take(t + 1)) == fn_bodies(ms.take(t)) + module_bodies(t, ms[t]),
{
    assert(ms.take(t + 1).drop_last() =~= ms.take(t));
    assert(ms.take(t + 1).last() == ms[t]);
}

/// If every function reached through the sorted name order resolves, every
/// function of every module resolves.
pub proof fn lemma_resolvable_from_sorted(ms: Seq<SpecModule>, c: SpecContext)
    requires
        fn_names_unique(ms),
        c == spec_context(ms),
        forall|t: int, k: int|
            0 <= t < ms.len() && 0 <= k < sorted_fn_names_of(ms[t]).len() ==> resolve_body(
                c,
                t,
                fn_body_of(ms[t], #[trigger] sorted_fn_names_of(ms[t])[k]),
            ) is Some,
    ensures
        resolvable(ms),
{
    broadcast use vstd::seq_lib::group_to_multiset_ensures;

    crate::lex::lemma_lex_total_ordering();
    assert forall|t: int, f: int|
        0 <= t < ms.len() && 0 <= f < ms[t].functions.len() implies resolve_body(
        spec_context(ms),
        t,
        #[trigger] ms[t].functions[f].1,
    ) is Some by {
        let m = ms[t];
        let names = fn_names_of(m);
        let sorted = sorted_fn_names_of(m);
        names.lemma_sort_by_ensures(crate::lex::lex_leq_fn());
        let name = names[f];
        assert(names[f] == m.functions[f].0);
        assert(names.contains(name));
        assert(sorted.to_multiset().count(name) > 0);
        assert(sorted.contains(name));
        let k = choose|k: int| 0 <= k < sorted.len() && sorted[k] == name;
        assert(names.no_duplicates());
        let p = fn_pair_pred(m.functions, name);
        assert(p(f));
        assert forall|j: int| 0 <= j < f implies !(#[trigger] p(j)) by {
            assert(names[j] == m.functions[j].0);
            assert(names[j] != names[f]);
        }
        crate::seqs::lemma_first_index_is(m.functions.len() as int, p, f);
        assert(fn_body_of(m, name) == m.functions[f].1);
        assert(resolve_body(c, t, fn_body_of(ms[t], sorted_fn_names_of(ms[t])[k])) is Some);
    }
}

/// Whether a name path is the pseudo-module `Prelude`.
pub fn is_prelude(name: &Vec<String>) -> (r: bool)
    ensures
        r == (name.deep_view() == prelude_name()),
{
    proof {
        assert(prelude_name().len() == 1);
        assert(name.deep_view().len() == name@.len());
    }
    if name.len() != 1 {
        return false;
    }
    proof {
        assert(name.deep_view()[0] == name@[0]@);
        assert(prelude_name()[0] == "Prelude"@);
    }
    if str_eq(name[0].as_str(), "Prelude") {
        proof {
            assert(name.deep_view() =~= prelude_name());
        }
        true
    } else {
        false
    }
}

/// The first supplied module of this name, if any.
pub fn find_module(modules: &Vec<bc::Module>, name: &Vec<String>) -> (r: Option<usize>)
    ensures
        ({
            let found = first_index(
                modules.deep_view().len() as int,
                mod_name_pred(modules.deep_view(), name.deep_view()),
            );
            match r {
                Some(t) => found == Some(t as int),
                None => found is None,
            }
        }),
{
    let ghost ms = modules.deep_view();
    let ghost target = name.deep_view();
    let mut t: usize = 0;
    while t < modules.len()
        invariant
            t <= ms.len(),
            ms == modules.deep_view(),
            ms.len() == modules@.len(),
            target == name.deep_view(),
            forall|k: int| 0 <= k < t ==> #[trigger] ms[k].name != target,
        decreases ms.len() - t,
    {
        proof {
            assert(ms[t as int] == modules@[t as int].deep_view());
        }
        if names_eq(&modules[t].name, name) {
            proof {
                let p = mod_name_pred(ms, target);
                assert(p(t as int));
                assert forall|k: int| 0 <= k < t implies !(#[trigger] p(k)) by {
                    assert(ms[k].name != target);
                }
                crate::seqs::lemma_first_index_is(ms.len() as int, p, t as int);
            }
            return Some(t);
        }
        t = t + 1;
    }
    proof {
        let p = mod_name_pred(ms, target);
        assert forall|k: int| 0 <= k < ms.len() implies !(#[trigger] p(k)) by {
            assert(ms[k].name != target);
        }
        crate::seqs::lemma_first_index_none(ms.len() as int, p);
    }
    None
}

/// Check that every declared dependency names a supplied module, `Prelude`
/// aside. Fails exactly when one does not.
pub fn check_modules(modules: &Vec<bc::Module>) -> (r: Result<(), LinkError>)
    ensures
        r is Ok <==> deps_ok(modules.deep_view()),
        r matches Err(e) ==> e matches LinkError::MissingDependency { dependency }
            && dependency.deep_view() != prelude_name() && !provided(
            modules.deep_view(),
            dependency.deep_view(),
        ),
{
    let ghost ms = modules.deep_view();
    let mut t: usize = 0;
    while t < modules.len()
        invariant
            t <= ms.len(),
            ms == modules.deep_view(),
            ms.len() == modules@.len(),
            forall|a: int, d: int|
                0 <= a < t && 0 <= d < ms[a].dependencies.len() ==> provided(
                    ms,
                    #[trigger] ms[a].dependencies[d],
                ) || ms[a].dependencies[d] == prelude_name(),
        decreases ms.len() - t,
    {
        let module = &modules[t];
        proof {
            assert(ms[t as int] == modules@[t as int].deep_view());
        }
        let mut d: usize = 0;
        while d < module.dependencies.len()
            invariant
                d <= ms[t as int].dependencies.len(),
                t < ms.len(),
                ms == modules.deep_view(),
                ms.len() == modules@.len(),
                module.deep_view() == ms[t as int],
                module.dependencies@.len() == ms[t as int].dependencies.len(),
                forall|a: int, dd: int|
                    0 <= a < t && 0 <= dd < ms[a].dependencies.len() ==> provided(
                        ms,
                        #[trigger] ms[a].dependencies[dd],
                    ) || ms[a].dependencies[dd] == prelude_name(),
                forall|dd: int|
                    0 <= dd < d ==> provided(ms, #[trigger] ms[t as int].dependencies[dd]) || ms[
                        t as int
                    ].dependencies[dd] == prelude_name(),
            decreases ms[t as int].dependencies.len() - d,
        {
            let dep = &module.dependencies[d];
            proof {
                assert(ms[t as int].dependencies[d as int] == module.dependencies@[
                    d as int].deep_view());
            }
            if !is_prelude(dep) {
                match find_module(modules, dep) {
                    Some(w) => {
                        proof {
                            crate::seqs::lemma_first_index(
                                ms.len() as int,
                                mod_name_pred(ms, dep.deep_view()),
                            );
                            assert(mod_name_pred(ms, dep.deep_view())(w as int));
                            assert(ms[w as int].name == dep.deep_view());
                            assert(provided(ms, dep.deep_view()));
                        }
                    },
                    None => {
                        proof {
                            crate::seqs::lemma_first_index(
                                ms.len() as int,
                                mod_name_pred(ms, dep.deep_view()),
                            );
                            assert forall|k: int|
                                0 <= k < ms.len() implies ms[k].name != dep.deep_view() by {
                                assert(!mod_name_pred(ms, dep.deep_view())(k));
                            }
                            assert(!provided(ms, dep.deep_view()));
                            assert(!deps_ok(ms)) by {
                                if deps_ok(ms) {
                                    assert(provided(ms, ms[t as int].dependencies[d as int]) || ms[
                                        t as int
                                    ].dependencies[d as int] == prelude_name());
                                }
                            }
                        }
                        return Err(
                            LinkError::MissingDependency {
                                dependency: crate::lex::clone_names(dep),
                            },
                        );
                    },
                }
            }
            d = d + 1;
        }
        t = t + 1;
    }
    Ok(())
}

/// The first datatype of this name in an ADT list, if any.
pub fn find_adt(adts: &Vec<(String, Vec<bc::ADTVariant>)>, name: &String) -> (r: Option<usize>)
    ensures
        ({
            let found = first_index(
                adts.deep_view().len() as int,
                adt_name_pred(adts.deep_view(), name@),
            );
            match r {
                Some(a) => found == Some(a as int),
                None => found is None,
            }
        }),
{
    let ghost dv = adts.deep_view();
    let mut a: usize = 0;
    while a < adts.len()
        invariant
            a <= dv.len(),
            dv == adts.deep_view(),
            dv.len() == adts@.len(),
            forall|k: int| 0 <= k < a ==> #[trigger] dv[k].0 != name@,
        decreases dv.len() - a,
    {
        proof {
            assert(dv[a as int] == adts@[a as int].deep_view());
            assert(dv[a as int].0 == adts@[a as int].0@);
        }
        if str_eq(adts[a].0.as_str(), name.as_str()) {
            proof {
                let p = adt_name_pred(dv, name@);
                assert(p(a as int));
                assert forall|k: int| 0 <= k < a implies !(#[trigger] p(k)) by {
                    assert(dv[k].0 != name@);
                }
                crate::seqs::lemma_first_index_is(dv.len() as int, p, a as int);
            }
            return Some(a);
        }
        a = a + 1;
    }
    proof {
        let p = adt_name_pred(dv, name@);
        assert forall|k: int| 0 <= k < dv.len() implies !(#[trigger] p(k)) by {
            assert(dv[k].0 != name@);
        }
        crate::seqs::lemma_first_index_none(dv.len() as int, p);
    }
    None
}

/// The first variant of this name in a variant list, if any.
pub fn find_variant(vs: &Vec<bc::ADTVariant>, name: &String) -> (r: Option<usize>)
    ensures
        ({
            let found = first_index(
                vs.deep_view().len() as int,
                variant_name_pred(vs.deep_view(), name@),
            );
            match r {
                Some(w) => found == Some(w as int),
                None => found is None,
            }
        }),
{
    let ghost dv = vs.deep_view();
    let mut w: usize = 0;
    while w < vs.len()
        invariant
            w <= dv.len(),
            dv == vs.deep_view(),
            dv.len() == vs@.len(),
            forall|k: int| 0 <= k < w ==> #[trigger] dv[k].name != name@,
        decreases dv.len() - w,
    {
        proof {
            assert(dv[w as int] == vs@[w as int].deep_view());
            assert(dv[w as int].name == vs@[w as int].name@);
        }
        if str_eq(vs[w].name.as_str(), name.as_str()) {
            proof {
                let p = variant_name_pred(dv, name@);
                assert(p(w as int));
                assert forall|k: int| 0 <= k < w implies !(#[trigger] p(k)) by {
                    assert(dv[k].name != name@);
                }
                crate::seqs::lemma_first_index_is(dv.len() as int, p, w as int);
            }
            return Some(w);
        }
        w = w + 1;
    }
    proof {
        let p = variant_name_pred(dv, name@);
        assert forall|k: int| 0 <= k < dv.len() implies !(#[trigger] p(k)) by {
            assert(dv[k].name != name@);
        }
        crate::seqs::lemma_first_index_none(dv.len() as int, p);
    }
    None
}

/// Whether a variant list holds a variant of this name.
pub fn variant_contains(vs: &Vec<bc::ADTVariant>, name: &String) -> (r: bool)
    ensures
        r == variant_names(vs.deep_view()).contains(name@),
{
    let ghost dv = vs.deep_view();
    match find_variant(vs, name) {
        Some(w) => {
            proof {
                crate::seqs::lemma_first_index(dv.len() as int, variant_name_pred(dv, name@));
                assert(variant_name_pred(dv, name@)(w as int));
                assert(variant_names(dv)[w as int] == dv[w as int].name);
            }
            true
        },
        None => {
            proof {
                crate::seqs::lemma_first_index(dv.len() as int, variant_name_pred(dv, name@));
                assert forall|k: int|
                    0 <= k < variant_names(dv).len() implies variant_names(dv)[k] != name@ by {
                    assert(!variant_name_pred(dv, name@)(k));
                    assert(variant_names(dv)[k] == dv[k].name);
                }
            }
            false
        },
    }
}

/// Check one expected-ADT declaration of module `owner` against the
/// supplied modules.
fn check_one_expected(modules: &Vec<bc::Module>, owner: &Vec<String>, exp: &bc::ExpectedADT) -> (r:
    Result<(), LinkError>)
    ensures
        r is Ok <==> expected_adt_ok(modules.deep_view(), exp.deep_view()),
        r matches Err(e) ==> (e is ExpectedAdtUnknownModule || e is ExpectedAdtUnknownAdt
            || e is AdtVariantMismatch || e is AdtElementsMismatch
            || e is UnsortedExpectedElements),
{
    let ghost ms = modules.deep_view();
    let ghost se = exp.deep_view();
    proof {
        assert(se.module == exp.module.deep_view());
        assert(se.name == exp.name@);
    }
    let tm = match find_module(modules, &exp.module) {
        Some(tm) => tm,
        None => {
            proof {
                assert(!expected_adt_ok(ms, se));
            }
            return Err(
                LinkError::ExpectedAdtUnknownModule {
                    module: crate::lex::clone_names(owner),
                    target: crate::lex::clone_names(&exp.module),
                },
            );
        },
    };
    proof {
        crate::seqs::lemma_first_index(ms.len() as int, mod_name_pred(ms, se.module));
    }
    let target = &modules[tm];
    proof {
        assert(ms[tm as int] == modules@[tm as int].deep_view());
    }
    let ai = match find_adt(&target.adts, &exp.name) {
        Some(ai) => ai,
        None => {
            proof {
                assert(target.adts.deep_view() == ms[tm as int].adts);
                assert(!expected_adt_ok(ms, se));
            }
            return Err(
                LinkError::ExpectedAdtUnknownAdt {
                    module: crate::lex::clone_names(owner),
                    target: crate::lex::clone_names(&exp.module),
                    name: crate::lex::clone_string(&exp.name),
                },
            );
        },
    };
    proof {
        assert(target.adts.deep_view() == ms[tm as int].adts);
        crate::seqs::lemma_first_index(
            ms[tm as int].adts.len() as int,
            adt_name_pred(ms[tm as int].adts, se.name),
        );
    }
    let provided_vs = &target.adts[ai].1;
    let ghost pvs = ms[tm as int].adts[ai as int].1;
    proof {
        assert(ms[tm as int].adts[ai as int] == target.adts@[ai as int].deep_view());
        assert(provided_vs.deep_view() == pvs);
        assert(expected_adt_ok(ms, se) == adt_matches(pvs, se.variants));
        assert(se.variants.len() == exp.variants@.len());
    }
    let mut i: usize = 0;
    while i < exp.variants.len()
        invariant
            i <= se.variants.len(),
            ms == modules.deep_view(),
            se == exp.deep_view(),
            se.variants.len() == exp.variants@.len(),
            pvs == provided_vs.deep_view(),
            expected_adt_ok(ms, se) == adt_matches(pvs, se.variants),
            forall|k: int|
                0 <= k < i ==> variant_names(pvs).contains(#[trigger] se.variants[k].name),
        decreases se.variants.len() - i,
    {
        proof {
            assert(se.variants[i as int] == exp.variants@[i as int].deep_view());
            assert(se.variants[i as int].name == exp.variants@[i as int].name@);
        }
        if !variant_contains(provided_vs, &exp.variants[i].name) {
            proof {
                assert(!adt_matches(pvs, se.variants)) by {
                    if adt_matches(pvs, se.variants) {
                        assert(variant_names(pvs).contains(se.variants[i as int].name));
                    }
                }
            }
            return Err(
                LinkError::AdtVariantMismatch {
                    module: crate::lex::clone_names(owner),
                    target: crate::lex::clone_names(&exp.module),
                    name: crate::lex::clone_string(&exp.name),
                },
            );
        }
        i = i + 1;
    }
    let mut w: usize = 0;
    while w < provided_vs.len()
        invariant
            w <= pvs.len(),
            ms == modules.deep_view(),
            se == exp.deep_view(),
            pvs == provided_vs.deep_view(),
            pvs.len() == provided_vs@.len(),
            expected_adt_ok(ms, se) == adt_matches(pvs, se.variants),
            forall|k: int|
                0 <= k < w ==> variant_names(se.variants).contains(#[trigger] pvs[k].name),
        decreases pvs.len() - w,
    {
        proof {
            assert(pvs[w as int] == provided_vs@[w as int].deep_view());
            assert(pvs[w as int].name == provided_vs@[w as int].name@);
        }
        if !variant_contains(&exp.variants, &provided_vs[w].name) {
            proof {
                assert(exp.variants.deep_view() == se.variants);
                assert(!adt_matches(pvs, se.variants)) by {
                    if adt_matches(pvs, se.variants) {
                        assert(variant_names(se.variants).contains(pvs[w as int].name));
                    }
                }
            }
            return Err(
                LinkError::AdtVariantMismatch {
                    module: crate::lex::clone_names(owner),
                    target: crate::lex::clone_names(&exp.module),
                    name: crate::lex::clone_string(&exp.name),
                },
            );
        }
        w = w + 1;
    }
    let mut i: usize = 0;
    while i < exp.variants.len()
        invariant
            i <= se.variants.len(),
            ms == modules.deep_view(),
            se == exp.deep_view(),
            se.variants.len() == exp.variants@.len(),
            pvs == provided_vs.deep_view(),
            pvs.len() == provided_vs@.len(),
            expected_adt_ok(ms, se) == adt_matches(pvs, se.variants),
            forall|k: int|
                0 <= k < se.variants.len() ==> variant_names(pvs).contains(
                    #[trigger] se.variants[k].name,
                ),
            forall|k: int|
                0 <= k < pvs.len() ==> variant_names(se.variants).contains(#[trigger] pvs[k].name),
            forall|k: int|
                0 <= k < i ==> sorted_by(
                    #[trigger] se.variants[k].elements,
                    crate::lex::lex_leq_fn(),
                ),
            forall|k: int|
                0 <= k < i ==> match first_index(
                    pvs.len() as int,
                    variant_name_pred(pvs, se.variants[k].name),
                ) {
                    Some(wx) => pvs[wx].elements == (#[trigger] se.variants[k]).elements,
                    None => false,
                },
        decreases se.variants.len() - i,
    {
        let v = &exp.variants[i];
        proof {
            assert(se.variants[i as int] == exp.variants@[i as int].deep_view());
            assert(v.deep_view() == se.variants[i as int]);
            assert(v.name@ == se.variants[i as int].name);
            assert(v.elements.deep_view() == se.variants[i as int].elements);
        }
        match find_variant(provided_vs, &v.name) {
            Some(wx) => {
                proof {
                    crate::seqs::lemma_first_index(
                        pvs.len() as int,
                        variant_name_pred(pvs, v.name@),
                    );
                }
                if !names_sorted(&v.elements) {
                    proof {
                        assert(!adt_matches(pvs, se.variants)) by {
                            if adt_matches(pvs, se.variants) {
                                assert(sorted_by(
                                    se.variants[i as int].elements,
                                    crate::lex::lex_leq_fn(),
                                ));
                            }
                        }
                    }
                    return Err(
                        LinkError::UnsortedExpectedElements {
                            module: crate::lex::clone_names(owner),
                            name: crate::lex::clone_string(&exp.name),
                            variant: crate::lex::clone_string(&v.name),
                        },
                    );
                }
                proof {
                    assert(pvs[wx as int] == provided_vs@[wx as int].deep_view());
                    assert(pvs[wx as int].elements == provided_vs@[wx as int].elements.deep_view());
                }
                if !names_eq(&provided_vs[wx].elements, &v.elements) {
                    proof {
                        assert(!adt_matches(pvs, se.variants)) by {
                            if adt_matches(pvs, se.variants) {
                                assert(match first_index(
                                    pvs.len() as int,
                                    variant_name_pred(pvs, se.variants[i as int].name),
                                ) {
                                    Some(wy) => pvs[wy].elements == se.variants[i as int].elements,
                                    None => false,
                                });
                            }
                        }
                    }
                    return Err(
                        LinkError::AdtElementsMismatch {
                            module: crate::lex::clone_names(owner),
                            name: crate::lex::clone_string(&exp.name),
                            variant: crate::lex::clone_string(&v.name),
                        },
                    );
                }
            },
            None => {
                proof {
                    assert(variant_names(pvs).contains(se.variants[i as int].name));
                    let idx2 = choose|idx2: int|
                        0 <= idx2 < variant_names(pvs).len() && variant_names(pvs)[idx2]
                            == se.variants[i as int].name;
                    assert(variant_names(pvs)[idx2] == pvs[idx2].name);
                    crate::seqs::lemma_first_index(
                        pvs.len() as int,
                        variant_name_pred(pvs, v.name@),
                    );
                    assert(!variant_name_pred(pvs, v.name@)(idx2));
                    assert(false);
                }
                return Err(
                    LinkError::AdtVariantMismatch {
                        module: crate::lex::clone_names(owner),
                        target: crate::lex::clone_names(&exp.module),
                        name: crate::lex::clone_string(&exp.name),
                    },
                );
            },
        }
        i = i + 1;
    }
    proof {
        assert(adt_matches(pvs, se.variants));
    }
    Ok(())
}

/// Check every expected-ADT declaration: each target module exists, has the
/// datatype, the variant-name sets match, and each variant's sorted field
/// names agree element for element. Fails exactly when one does not.
pub fn check_provided_adts(modules: &Vec<bc::Module>) -> (r: Result<(), LinkError>)
    ensures
        r is Ok <==> adts_agree(modules.deep_view()),
        r matches Err(e) ==> (e is ExpectedAdtUnknownModule || e is ExpectedAdtUnknownAdt
            || e is AdtVariantMismatch || e is AdtElementsMismatch
            || e is UnsortedExpectedElements),
{
    let ghost ms = modules.deep_view();
    let mut t: usize = 0;
    while t < modules.len()
        invariant
            t <= ms.len(),
            ms == modules.deep_view(),
            ms.len() == modules@.len(),
            forall|a: int, e: int|
                0 <= a < t && 0 <= e < ms[a].expected_adts.len() ==> expected_adt_ok(
                    ms,
                    #[trigger] ms[a].expected_adts[e],
                ),
        decreases ms.len() - t,
    {
        let module = &modules[t];
        proof {
            assert(ms[t as int] == modules@[t as int].deep_view());
        }
        let mut e: usize = 0;
        while e < module.expected_adts.len()
            invariant
                e <= ms[t as int].expected_adts.len(),
                t < ms.len(),
                ms == modules.deep_view(),
                ms.len() == modules@.len(),
                module.deep_view() == ms[t as int],
                module.expected_adts@.len() == ms[t as int].expected_adts.len(),
                forall|a: int, ee: int|
                    0 <= a < t && 0 <= ee < ms[a].expected_adts.len() ==> expected_adt_ok(
                        ms,
                        #[trigger] ms[a].expected_adts[ee],
                    ),
                forall|ee: int|
                    0 <= ee < e ==> expected_adt_ok(ms, #[trigger] ms[t as int].expected_adts[ee]),
            decreases ms[t as int].expected_adts.len() - e,
        {
            let exp = &module.expected_adts[e];
            proof {
                assert(ms[t as int].expected_adts[e as int] == module.expected_adts@[
                    e as int].deep_view());
            }
            match check_one_expected(modules, &module.name, exp) {
                Ok(()) => {},
                Err(err) => {
                    proof {
                        assert(!adts_agree(ms)) by {
                            if adts_agree(ms) {
                                assert(expected_adt_ok(ms, ms[t as int].expected_adts[e as int]));
                            }
                        }
                    }
                    return Err(err);
                },
            }
            e = e + 1;
        }
        t = t + 1;
    }
    Ok(())
}

/// Resolve one raw instruction of a function of module `cur`.
fn resolve_one(cur: ModuleIndex, instr: &bc::RawInstruction, context: &Context) -> (r: Result<
    Instruction,
    LinkError,
>)
    requires
        context_tables_wf(context@),
    ensures
        match r {
            Ok(ins) => resolve_instr(context@, cur.0 as int, instr.deep_view()) == Some(
                ins.deep_view(),
            ),
            Err(e) => resolve_instr(context@, cur.0 as int, instr.deep_view()) is None && (
            e is UnknownIntrinsic || e is UnresolvedFunction || e is UnresolvedGlobal
                || e is UnresolvedConstructor || e is UnknownField),
        },
{
    let ghost c = context@;
    match instr {
        bc::RawInstruction::PushInt(n) => Ok(Instruction::PushInt(*n)),
        bc::RawInstruction::PushString(i) => Ok(
            Instruction::PushString(StringTableIndex(cur, *i)),
        ),
        bc::RawInstruction::LoadLocal(i) => Ok(Instruction::LoadLocal(*i)),
        bc::RawInstruction::StoreLocal(i) => Ok(Instruction::StoreLocal(*i)),
        bc::RawInstruction::LoadReg(i) => Ok(Instruction::LoadReg(*i)),
        bc::RawInstruction::StoreReg(i) => Ok(Instruction::StoreReg(*i)),
        bc::RawInstruction::Unless(i) => Ok(Instruction::Unless(*i)),
        bc::RawInstruction::Jump(i) => Ok(Instruction::Jump(*i)),
        bc::RawInstruction::Call(i) => Ok(Instruction::Call(*i)),
        bc::RawInstruction::LoadName(module_name, fun) => {
            if is_prelude(&module_name.module) {
                if is_intrinsic(fun) {
                    Ok(Instruction::LoadIntrinsic(crate::lex::clone_string(fun)))
                } else {
                    Err(LinkError::UnknownIntrinsic { name: crate::lex::clone_string(fun) })
                }
            } else {
                match context.fn_called(&module_name.module, fun) {
                    Some(fi) => Ok(Instruction::LoadName(fi)),
                    None => Err(
                        LinkError::UnresolvedFunction {
                            module: crate::lex::clone_names(&module_name.module),
                            name: crate::lex::clone_string(fun),
                        },
                    ),
                }
            }
        },
        bc::RawInstruction::LoadGlobal(fun) => {
            match context.module_fn_called(cur, fun.as_str()) {
                Some(fi) => Ok(Instruction::LoadName(fi)),
                None => Err(LinkError::UnresolvedGlobal { name: crate::lex::clone_string(fun) }),
            }
        },
        bc::RawInstruction::Instantiate(module_name, datatype, ctor) => {
            match context.ctor_called(module_name, datatype, ctor) {
                Some(ci) => Ok(Instruction::Instantiate(ci)),
                None => Err(
                    LinkError::UnresolvedConstructor {
                        module: crate::lex::clone_names(&module_name.module),
                        datatype: crate::lex::clone_string(datatype),
                        ctor: crate::lex::clone_string(ctor),
                    },
                ),
            }
        },
        bc::RawInstruction::IsVariant(module_name, datatype, ctor) => {
            match context.ctor_called(module_name, datatype, ctor) {
                Some(ci) => Ok(Instruction::IsVariant(ci)),
                None => Err(
                    LinkError::UnresolvedConstructor {
                        module: crate::lex::clone_names(&module_name.module),
                        datatype: crate::lex::clone_string(datatype),
                        ctor: crate::lex::clone_string(ctor),
                    },
                ),
            }
        },
        bc::RawInstruction::Field(module_name, datatype, ctor, field) => {
            match context.ctor_called(module_name, datatype, ctor) {
                Some(ci) => {
                    proof {
                        let d = module_datatype_spec(
                            c,
                            module_called_spec(c, module_name.deep_view()).unwrap(),
                            datatype@,
                        ).unwrap();
                        lemma_ctor_in_datatype(c, d, ctor@);
                    }
                    match context.ctor_field(ci, field) {
                        Some(k) => Ok(Instruction::Field(ci, k)),
                        None => Err(
                            LinkError::UnknownField { field: crate::lex::clone_string(field) },
                        ),
                    }
                },
                None => Err(
                    LinkError::UnresolvedConstructor {
                        module: crate::lex::clone_names(&module_name.module),
                        datatype: crate::lex::clone_string(datatype),
                        ctor: crate::lex::clone_string(ctor),
                    },
                ),
            }
        },
    }
}

/// Rewrite one function's raw instructions into resolved instructions, or
/// fail on the first name that does not resolve.
pub fn compile(cur_module_idx: ModuleIndex, instrs: &Vec<bc::RawInstruction>, context: &Context)
    -> (r: Result<Vec<Instruction>, LinkError>)
    requires
        context_tables_wf(context@),
    ensures
        match r {
            Ok(v) => resolve_body(context@, cur_module_idx.0 as int, instrs.deep_view()) == Some(
                v.deep_view(),
            ),
            Err(e) => resolve_body(context@, cur_module_idx.0 as int, instrs.deep_view()) is None
                && (e is UnknownIntrinsic || e is UnresolvedFunction || e is UnresolvedGlobal
                || e is UnresolvedConstructor || e is UnknownField),
        },
{
    let ghost c = context@;
    let ghost dv = instrs.deep_view();
    let ghost cur = cur_module_idx.0 as int;
    let mut out: Vec<Instruction> = Vec::new();
    let mut i: usize = 0;
    while i < instrs.len()
        invariant
            i <= dv.len(),
            dv == instrs.deep_view(),
            dv.len() == instrs@.len(),
            cur == cur_module_idx.0 as int,
            c == context@,
            context_tables_wf(c),
            out@.len() == i,
            forall|k: int|
                0 <= k < i ==> resolve_instr(c, cur, #[trigger] dv[k]) == Some(out.deep_view()[k]),
        decreases dv.len() - i,
    {
        proof {
            assert(dv[i as int] == instrs@[i as int].deep_view());
        }
        match resolve_one(cur_module_idx, &instrs[i], context) {
            Ok(ins) => {
                out.push(ins);
                proof {
                    assert(out.deep_view()[i as int] == out@[i as int].deep_view());
                    assert(forall|k: int|
                        0 <= k < i ==> out.deep_view()[k] == out@[k].deep_view());
                }
            },
            Err(e) => {
                proof {
                    assert(resolve_instr(c, cur, dv[i as int]) is None);
                    assert(resolve_body(c, cur, dv) is None);
                }
                return Err(e);
            },
        }
        i = i + 1;
    }
    proof {
        assert(forall|k: int|
            0 <= k < dv.len() ==> (#[trigger] resolve_instr(c, cur, dv[k])) is Some);
        let expect = Seq::new(dv.len(), |k: int| resolve_instr(c, cur, dv[k]).unwrap());
        assert forall|k: int| 0 <= k < dv.len() implies out.deep_view()[k] == expect[k] by {
            assert(resolve_instr(c, cur, dv[k]) == Some(out.deep_view()[k]));
        }
        assert(out.deep_view() =~= expect);
    }
    Ok(out)
}

/// The first function of this name in a function list, if any.
pub fn find_function(functions: &Vec<(String, Vec<bc::RawInstruction>)>, name: &String) -> (r:
    Option<usize>)
    ensures
        ({
            let found = first_index(
                functions.deep_view().len() as int,
                fn_pair_pred(functions.deep_view(), name@),
            );
            match r {
                Some(f) => found == Some(f as int),
                None => found is None,
            }
        }),
{
    let ghost dv = functions.deep_view();
    let mut f: usize = 0;
    while f < functions.len()
        invariant
            f <= dv.len(),
            dv == functions.deep_view(),
            dv.len() == functions@.len(),
            forall|k: int| 0 <= k < f ==> #[trigger] dv[k].0 != name@,
        decreases dv.len() - f,
    {
        proof {
            assert(dv[f as int] == functions@[f as int].deep_view());
            assert(dv[f as int].0 == functions@[f as int].0@);
        }
        if str_eq(functions[f].0.as_str(), name.as_str()) {
            proof {
                let p = fn_pair_pred(dv, name@);
                assert(p(f as int));
                assert forall|k: int| 0 <= k < f implies !(#[trigger] p(k)) by {
                    assert(dv[k].0 != name@);
                }
                crate::seqs::lemma_first_index_is(dv.len() as int, p, f as int);
            }
            return Some(f);
        }
        f = f + 1;
    }
    proof {
        let p = fn_pair_pred(dv, name@);
        assert forall|k: int| 0 <= k < dv.len() implies !(#[trigger] p(k)) by {
            assert(dv[k].0 != name@);
        }
        crate::seqs::lemma_first_index_none(dv.len() as int, p);
    }
    None
}

/// The bodies of the first `t` modules head the full body order.
pub proof fn lemma_fn_bodies_prefix(ms: Seq<SpecModule>, t: int)
    requires
        0 <= t <= ms.len(),
    ensures
        fn_bodies(ms.take(t)).len() <= fn_bodies(ms).len(),
        forall|k: int|
            0 <= k < fn_bodies(ms.take(t)).len() ==> #[trigger] fn_bodies(ms)[k] == fn_bodies(
                ms.take(t),
            )[k],
    decreases ms.len() - t,
{
    if t == ms.len() {
        assert(ms.take(t) =~= ms);
    } else {
        lemma_fn_bodies_take_step(ms, t);
        lemma_fn_bodies_prefix(ms, t + 1);
        assert(forall|k: int|
            0 <= k < fn_bodies(ms.take(t)).len() ==> #[trigger] fn_bodies(ms.take(t + 1))[k]
                == fn_bodies(ms.take(t))[k]);
    }
}

/// Link the supplied modules: validate dependencies and ADT agreements,
/// assign dense indices to every module, function, datatype and
/// constructor, and resolve all raw bytecode. Succeeds exactly when every
/// check passes and every name resolves; the tables and the resolved
/// program are a function of the supplied modules alone.
#[verifier::rlimit(100)]
pub fn link(modules: &Vec<bc::Module>) -> (r: Result<(Program, Context), LinkError>)
    requires
        fn_names_unique(modules.deep_view()),
    ensures
        r is Ok <==> wf_link(modules.deep_view()),
        (match r {
            Ok(pc) => ({
                let ms = modules.deep_view();
                &&& pc.1@ == spec_context(ms)
                &&& pc.0@.len() == fn_bodies(ms).len()
                &&& forall|k: int|
                    0 <= k < fn_bodies(ms).len() ==> Some(#[trigger] pc.0@[k]) == resolve_body(
                        spec_context(ms),
                        fn_bodies(ms)[k].0,
                        fn_bodies(ms)[k].1,
                    )
            }),
            Err(e) => ({
                let ms = modules.deep_view();
                &&& (!deps_ok(ms) ==> e is MissingDependency)
                &&& (deps_ok(ms) && !adts_agree(ms) ==> (e is ExpectedAdtUnknownModule
                    || e is ExpectedAdtUnknownAdt || e is AdtVariantMismatch
                    || e is AdtElementsMismatch || e is UnsortedExpectedElements))
                &&& (deps_ok(ms) && adts_agree(ms) && !provided_elements_sorted(ms)
                    ==> e is UnsortedProvidedElements)
                &&& (deps_ok(ms) && adts_agree(ms) && provided_elements_sorted(ms) ==> (
                e is UnknownIntrinsic || e is UnresolvedFunction || e is UnresolvedGlobal
                    || e is UnresolvedConstructor || e is UnknownField))
            }),
        }),
{
    let ghost ms = modules.deep_view();
    match check_modules(modules) {
        Ok(()) => {},
        Err(e) => {
            return Err(e);
        },
    }
    match check_provided_adts(modules) {
        Ok(()) => {},
        Err(e) => {
            return Err(e);
        },
    }
    let mut module_names_v: Vec<Vec<String>> = Vec::new();
    let mut function_modules_v: Vec<ModuleIndex> = Vec::new();
    let mut function_module_names_v: Vec<Vec<String>> = Vec::new();
    let mut function_names_v: Vec<String> = Vec::new();
    let mut datatype_modules_v: Vec<ModuleIndex> = Vec::new();
    let mut datatype_module_names_v: Vec<Vec<String>> = Vec::new();
    let mut datatype_names_v: Vec<String> = Vec::new();
    let mut constructor_modules_v: Vec<ModuleIndex> = Vec::new();
    let mut constructor_module_names_v: Vec<Vec<String>> = Vec::new();
    let mut constructor_datatypes_v: Vec<DatatypeIndex> = Vec::new();
    let mut constructor_datatype_names_v: Vec<String> = Vec::new();
    let mut constructor_names_v: Vec<String> = Vec::new();
    let mut constructor_fields_v: Vec<Vec<String>> = Vec::new();
    let mut strings_v: Vec<Vec<String>> = Vec::new();
    let mut sorted_per_module: Vec<Vec<String>> = Vec::new();
    let mut t: usize = 0;
    while t < modules.len()
        invariant
            t <= ms.len(),
            ms == modules.deep_view(),
            ms.len() == modules@.len(),
            fn_names_unique(ms),
            deps_ok(ms),
            adts_agree(ms),
            module_names_v.deep_view() == spec_context(ms.take(t as int)).module_names,
            function_modules_v@ == spec_context(ms.take(t as int)).function_modules,
            function_module_names_v.deep_view() == spec_context(
                ms.take(t as int),
            ).function_module_names,
            function_names_v.deep_view() == spec_context(ms.take(t as int)).function_names,
            datatype_modules_v@ == spec_context(ms.take(t as int)).datatype_modules,
            datatype_module_names_v.deep_view() == spec_context(
                ms.take(t as int),
            ).datatype_module_names,
            datatype_names_v.deep_view() == spec_context(ms.take(t as int)).datatype_names,
            constructor_modules_v@ == spec_context(ms.take(t as int)).constructor_modules,
            constructor_module_names_v.deep_view() == spec_context(
                ms.take(t as int),
            ).constructor_module_names,
            constructor_datatypes_v@ == spec_context(ms.take(t as int)).constructor_datatypes,
            constructor_datatype_names_v.deep_view() == spec_context(
                ms.take(t as int),
            ).constructor_datatype_names,
            constructor_names_v.deep_view() == spec_context(ms.take(t as int)).constructor_names,
            constructor_fields_v.deep_view() == spec_context(ms.take(t as int)).constructor_fields,
            strings_v.deep_view() == spec_context(ms.take(t as int)).strings,
            sorted_per_module@.len() == t,
            forall|a: int|
                0 <= a < t ==> (#[trigger] sorted_per_module@[a]).deep_view()
                    == sorted_fn_names_of(ms[a]),
            forall|a: int, x: int, v: int|
                0 <= a < t && 0 <= x < ms[a].adts.len() && 0 <= v < ms[a].adts[x].1.len()
                    ==> sorted_by((#[trigger] ms[a].adts[x].1[v]).elements, lex_leq_fn()),
        decreases ms.len() - t,
    {
        let ghost base = spec_context(ms.take(t as int));
        let module = &modules[t];
        proof {
            assert(ms[t as int] == modules@[t as int].deep_view());
        }
        let mut names: Vec<String> = Vec::new();
        let mut f: usize = 0;
        while f < module.functions.len()
            invariant
                f <= module.functions@.len(),
                t < ms.len(),
                ms == modules.deep_view(),
                module.deep_view() == ms[t as int],
                module.functions@.len() == ms[t as int].functions.len(),
                names@.len() == f,
                forall|k: int|
                    0 <= k < f ==> names.deep_view()[k] == fn_names_of(ms[t as int])[k],
            decreases module.functions@.len() - f,
        {
            let ghost nd0 = names.deep_view();
            names.push(crate::lex::clone_string(&module.functions[f].0));
            proof {
                assert(ms[t as int].functions[f as int] == module.functions@[
                    f as int].deep_view());
                assert(fn_names_of(ms[t as int])[f as int] == ms[t as int].functions[f as int].0);
                assert forall|k: int|
                    0 <= k <= f implies names.deep_view()[k] == fn_names_of(ms[t as int])[k] by {
                    assert(names.deep_view()[k] == names@[k]@);
                    if k < f {
                        assert(nd0[k] == fn_names_of(ms[t as int])[k]);
                    }
                }
            }
            f = f + 1;
        }
        let ghost names_at = names@;
        let ghost names_dv = names.deep_view();
        proof {
            assert(names_dv =~= fn_names_of(ms[t as int]));
            assert(crate::seqs::strs_view(names_at) =~= names_dv);
        }
        let sorted = crate::lex::sort_names(names);
        proof {
            assert(crate::seqs::strs_view(sorted@) =~= sorted.deep_view());
            assert(fn_names_of(ms[t as int]).no_duplicates());
            crate::lex::lemma_sorted_names_canonical(
                sorted.deep_view(),
                fn_names_of(ms[t as int]),
            );
            assert(sorted.deep_view() == sorted_fn_names_of(ms[t as int]));
            assert(base.function_modules + rep_module(0, t as int) =~= base.function_modules);
            assert(base.function_module_names + rep_name(0, ms[t as int].name)
                =~= base.function_module_names);
            assert(base.function_names + sorted_fn_names_of(ms[t as int]).take(0)
                =~= base.function_names);
        }
        let mut k: usize = 0;
        while k < sorted.len()
            invariant
                k <= sorted@.len(),
                t < ms.len(),
                ms == modules.deep_view(),
                module.deep_view() == ms[t as int],
                sorted.deep_view() == sorted_fn_names_of(ms[t as int]),
                sorted@.len() == sorted_fn_names_of(ms[t as int]).len(),
                base == spec_context(ms.take(t as int)),
                function_modules_v@ == base.function_modules + rep_module(k as nat, t as int),
                function_module_names_v.deep_view() == base.function_module_names + rep_name(
                    k as nat,
                    ms[t as int].name,
                ),
                function_names_v.deep_view() == base.function_names + sorted_fn_names_of(
                    ms[t as int],
                ).take(k as int),
            decreases sorted@.len() - k,
        {
            let ghost fm0 = function_modules_v@;
            let ghost fmn0 = function_module_names_v.deep_view();
            let ghost fn0 = function_names_v.deep_view();
            function_modules_v.push(ModuleIndex(t));
            function_module_names_v.push(crate::lex::clone_names(&module.name));
            function_names_v.push(crate::lex::clone_string(&sorted[k]));
            proof {
                assert(function_modules_v@ =~= base.function_modules + rep_module(
                    (k + 1) as nat,
                    t as int,
                ));
                assert(function_module_names_v.deep_view() =~= fmn0.push(ms[t as int].name));
                assert(fmn0.push(ms[t as int].name) =~= base.function_module_names + rep_name(
                    (k + 1) as nat,
                    ms[t as int].name,
                ));
                assert(sorted.deep_view()[k as int] == sorted@[k as int]@);
                assert(function_names_v.deep_view() =~= fn0.push(
                    sorted_fn_names_of(ms[t as int])[k as int],
                ));
                assert(fn0.push(sorted_fn_names_of(ms[t as int])[k as int])
                    =~= base.function_names + sorted_fn_names_of(ms[t as int]).take(k + 1));
            }
            k = k + 1;
        }
        proof {
            assert(sorted_fn_names_of(ms[t as int]).take(sorted@.len() as int)
                =~= sorted_fn_names_of(ms[t as int]));
            assert(base.datatype_modules + rep_module(0, t as int) =~= base.datatype_modules);
            assert(base.datatype_module_names + rep_name(0, ms[t as int].name)
                =~= base.datatype_module_names);
            assert(base.datatype_names + adt_names_of(ms[t as int].adts).take(0)
                =~= base.datatype_names);
            assert(ctor_chunk(ms[t as int].adts, base.datatype_names.len() as int, 0)
                =~= Seq::<CtorRec>::empty());
            assert(base.constructor_modules + rep_module(0, t as int)
                =~= base.constructor_modules);
            assert(base.constructor_module_names + rep_name(0, ms[t as int].name)
                =~= base.constructor_module_names);
            assert(col_dt(Seq::<CtorRec>::empty()) =~= Seq::<DatatypeIndex>::empty());
            assert(base.constructor_datatypes + col_dt(
                ctor_chunk(ms[t as int].adts, base.datatype_names.len() as int, 0),
            ) =~= base.constructor_datatypes);
            assert(base.constructor_datatype_names + col_dt_names(
                ctor_chunk(ms[t as int].adts, base.datatype_names.len() as int, 0),
            ) =~= base.constructor_datatype_names);
            assert(base.constructor_names + col_ctor_names(
                ctor_chunk(ms[t as int].adts, base.datatype_names.len() as int, 0),
            ) =~= base.constructor_names);
            assert(base.constructor_fields + col_fields(
                ctor_chunk(ms[t as int].adts, base.datatype_names.len() as int, 0),
            ) =~= base.constructor_fields);
        }
        let ghost dt_base = base.datatype_names.len() as int;
        let mut a: usize = 0;
        while a < module.adts.len()
            invariant
                a <= module.adts@.len(),
                t < ms.len(),
                ms == modules.deep_view(),
                ms.len() == modules@.len(),
                deps_ok(ms),
                adts_agree(ms),
                module.deep_view() == ms[t as int],
                module.adts@.len() == ms[t as int].adts.len(),
                base == spec_context(ms.take(t as int)),
                dt_base == base.datatype_names.len() as int,
                datatype_modules_v@ == base.datatype_modules + rep_module(a as nat, t as int),
                datatype_module_names_v.deep_view() == base.datatype_module_names + rep_name(
                    a as nat,
                    ms[t as int].name,
                ),
                datatype_names_v.deep_view() == base.datatype_names + adt_names_of(
                    ms[t as int].adts,
                ).take(a as int),
                datatype_names_v@.len() == base.datatype_names.len() + a,
                constructor_modules_v@ == base.constructor_modules + rep_module(
                    ctor_chunk(ms[t as int].adts, dt_base, a as int).len(),
                    t as int,
                ),
                constructor_module_names_v.deep_view() == base.constructor_module_names + rep_name(
                    ctor_chunk(ms[t as int].adts, dt_base, a as int).len(),
                    ms[t as int].name,
                ),
                constructor_datatypes_v@ == base.constructor_datatypes + col_dt(
                    ctor_chunk(ms[t as int].adts, dt_base, a as int),
                ),
                constructor_datatype_names_v.deep_view() == base.constructor_datatype_names
                    + col_dt_names(ctor_chunk(ms[t as int].adts, dt_base, a as int)),
                constructor_names_v.deep_view() == base.constructor_names + col_ctor_names(
                    ctor_chunk(ms[t as int].adts, dt_base, a as int),
                ),
                constructor_fields_v.deep_view() == base.constructor_fields + col_fields(
                    ctor_chunk(ms[t as int].adts, dt_base, a as int),
                ),
                forall|x: int, v: int|
                    0 <= x < a && 0 <= v < ms[t as int].adts[x].1.len() ==> sorted_by(
                        (#[trigger] ms[t as int].adts[x].1[v]).elements,
                        lex_leq_fn(),
                    ),
                forall|b: int, x: int, v: int|
                    0 <= b < t && 0 <= x < ms[b].adts.len() && 0 <= v < ms[b].adts[x].1.len()
                        ==> sorted_by((#[trigger] ms[b].adts[x].1[v]).elements, lex_leq_fn()),
            decreases module.adts@.len() - a,
        {
            let ghost adts = ms[t as int].adts;
            proof {
                assert(adts[a as int] == module.adts@[a as int].deep_view());
                assert(adts[a as int].0 == module.adts@[a as int].0@);
                assert(adts[a as int].1 == module.adts@[a as int].1.deep_view());
            }
            let ghost dmn0 = datatype_module_names_v.deep_view();
            let ghost dn0 = datatype_names_v.deep_view();
            datatype_modules_v.push(ModuleIndex(t));
            datatype_module_names_v.push(crate::lex::clone_names(&module.name));
            datatype_names_v.push(crate::lex::clone_string(&module.adts[a].0));
            let dt_idx_usize = datatype_names_v.len() - 1;
            proof {
                assert(dt_idx_usize as int == dt_base + a as int);
                assert(datatype_modules_v@ =~= base.datatype_modules + rep_module(
                    (a + 1) as nat,
                    t as int,
                ));
                assert(datatype_module_names_v.deep_view() =~= dmn0.push(ms[t as int].name));
                assert(dmn0.push(ms[t as int].name) =~= base.datatype_module_names + rep_name(
                    (a + 1) as nat,
                    ms[t as int].name,
                ));
                assert(adt_names_of(adts)[a as int] == adts[a as int].0);
                assert(datatype_names_v.deep_view() =~= dn0.push(adts[a as int].0));
                assert(dn0.push(adts[a as int].0) =~= base.datatype_names + adt_names_of(
                    adts,
                ).take(a + 1));
                assert(adt_ctors(adts[a as int], dt_base + a as int).take(0)
                    =~= Seq::<CtorRec>::empty());
            }
            let ghost chunk = ctor_chunk(adts, dt_base, a as int);
            let ghost arun = adt_ctors(adts[a as int], dt_base + a as int);
            let mut v: usize = 0;
            while v < module.adts[a].1.len()
                invariant
                    v <= module.adts@[a as int].1@.len(),
                    t < ms.len(),
                    a < module.adts@.len(),
                    ms == modules.deep_view(),
                    ms.len() == modules@.len(),
                    deps_ok(ms),
                    adts_agree(ms),
                    module.deep_view() == ms[t as int],
                    adts == ms[t as int].adts,
                    module.adts@.len() == adts.len(),
                    adts[a as int].1 == module.adts@[a as int].1.deep_view(),
                    adts[a as int].1.len() == module.adts@[a as int].1@.len(),
                    base == spec_context(ms.take(t as int)),
                    chunk == ctor_chunk(adts, dt_base, a as int),
                    arun == adt_ctors(adts[a as int], dt_base + a as int),
                    arun.len() == adts[a as int].1.len(),
                    dt_idx_usize as int == dt_base + a as int,
                    constructor_modules_v@ == base.constructor_modules + rep_module(
                        (chunk.len() + v) as nat,
                        t as int,
                    ),
                    constructor_module_names_v.deep_view() == base.constructor_module_names
                        + rep_name((chunk.len() + v) as nat, ms[t as int].name),
                    constructor_datatypes_v@ == base.constructor_datatypes + col_dt(
                        chunk + arun.take(v as int),
                    ),
                    constructor_datatype_names_v.deep_view() == base.constructor_datatype_names
                        + col_dt_names(chunk + arun.take(v as int)),
                    constructor_names_v.deep_view() == base.constructor_names + col_ctor_names(
                        chunk + arun.take(v as int),
                    ),
                    constructor_fields_v.deep_view() == base.constructor_fields + col_fields(
                        chunk + arun.take(v as int),
                    ),
                    forall|vv: int|
                        0 <= vv < v ==> sorted_by(
                            (#[trigger] adts[a as int].1[vv]).elements,
                            lex_leq_fn(),
                        ),
                decreases module.adts@[a as int].1@.len() - v,
            {
                proof {
                    assert(adts[a as int].1[v as int] == module.adts@[a as int].1@[
                        v as int].deep_view());
                }
                if !names_sorted(&module.adts[a].1[v].elements) {
                    proof {
                        assert(!sorted_by(adts[a as int].1[v as int].elements, lex_leq_fn()));
                        assert(!provided_elements_sorted(ms)) by {
                            if provided_elements_sorted(ms) {
                                assert(sorted_by(
                                    ms[t as int].adts[a as int].1[v as int].elements,
                                    lex_leq_fn(),
                                ));
                            }
                        }
                    }
                    return Err(
                        LinkError::UnsortedProvidedElements {
                            module: crate::lex::clone_names(&module.name),
                            name: crate::lex::clone_string(&module.adts[a].0),
                            variant: crate::lex::clone_string(&module.adts[a].1[v].name),
                        },
                    );
                }
                let ghost cmn0 = constructor_module_names_v.deep_view();
                let ghost cdn0 = constructor_datatype_names_v.deep_view();
                let ghost cn0 = constructor_names_v.deep_view();
                let ghost cf0 = constructor_fields_v.deep_view();
                constructor_modules_v.push(ModuleIndex(t));
                constructor_module_names_v.push(crate::lex::clone_names(&module.name));
                constructor_datatypes_v.push(DatatypeIndex(dt_idx_usize));
                constructor_datatype_names_v.push(crate::lex::clone_string(&module.adts[a].0));
                constructor_names_v.push(crate::lex::clone_string(&module.adts[a].1[v].name));
                constructor_fields_v.push(crate::lex::clone_names(&module.adts[a].1[v].elements));
                proof {
                    let rec = arun[v as int];
                    assert(rec == CtorRec {
                        datatype: dt_base + a as int,
                        datatype_name: adts[a as int].0,
                        name: adts[a as int].1[v as int].name,
                        fields: adts[a as int].1[v as int].elements,
                    });
                    assert(chunk + arun.take(v + 1) =~= (chunk + arun.take(v as int)).push(rec));
                    assert(constructor_modules_v@ =~= base.constructor_modules + rep_module(
                        (chunk.len() + v + 1) as nat,
                        t as int,
                    ));
                    assert(constructor_module_names_v.deep_view() =~= cmn0.push(
                        ms[t as int].name,
                    ));
                    assert(cmn0.push(ms[t as int].name) =~= base.constructor_module_names
                        + rep_name((chunk.len() + v + 1) as nat, ms[t as int].name));
                    assert(col_dt((chunk + arun.take(v as int)).push(rec)) =~= col_dt(
                        chunk + arun.take(v as int),
                    ).push(DatatypeIndex(rec.datatype as usize)));
                    assert(constructor_datatypes_v@ =~= base.constructor_datatypes + col_dt(
                        chunk + arun.take(v + 1),
                    ));
                    assert(col_dt_names((chunk + arun.take(v as int)).push(rec)) =~= col_dt_names(
                        chunk + arun.take(v as int),
                    ).push(rec.datatype_name));
                    assert(constructor_datatype_names_v.deep_view() =~= cdn0.push(
                        rec.datatype_name,
                    ));
                    assert(cdn0.push(rec.datatype_name) =~= base.constructor_datatype_names
                        + col_dt_names(chunk + arun.take(v + 1)));
                    assert(col_ctor_names((chunk + arun.take(v as int)).push(rec))
                        =~= col_ctor_names(chunk + arun.take(v as int)).push(rec.name));
                    assert(constructor_names_v.deep_view() =~= cn0.push(rec.name));
                    assert(cn0.push(rec.name) =~= base.constructor_names + col_ctor_names(
                        chunk + arun.take(v + 1),
                    ));
                    assert(col_fields((chunk + arun.take(v as int)).push(rec)) =~= col_fields(
                        chunk + arun.take(v as int),
                    ).push(rec.fields));
                    assert(constructor_fields_v.deep_view() =~= cf0.push(rec.fields));
                    assert(cf0.push(rec.fields) =~= base.constructor_fields + col_fields(
                        chunk + arun.take(v + 1),
                    ));
                }
                v = v + 1;
            }
            proof {
                assert(arun.take(arun.len() as int) =~= arun);
                assert(chunk + arun =~= ctor_chunk(adts, dt_base, a + 1));
            }
            a = a + 1;
        }
        let ghost sv0 = strings_v.deep_view();
        let ghost mn0 = module_names_v.deep_view();
        strings_v.push(crate::lex::clone_names(&module.strings));
        module_names_v.push(crate::lex::clone_names(&module.name));
        sorted_per_module.push(sorted);
        proof {
            broadcast use vstd::seq_lib::group_to_multiset_ensures;

            lemma_spec_context_take_step(ms, t as int);
            let next = append_module(base, t as int, ms[t as int]);
            crate::lex::lemma_lex_total_ordering();
            fn_names_of(ms[t as int]).lemma_sort_by_ensures(crate::lex::lex_leq_fn());
            assert(fn_names_of(ms[t as int]).to_multiset() =~= sorted_fn_names_of(
                ms[t as int],
            ).to_multiset());
            assert(fn_names_of(ms[t as int]).to_multiset().len() == fn_names_of(
                ms[t as int],
            ).len());
            assert(sorted_fn_names_of(ms[t as int]).to_multiset().len() == sorted_fn_names_of(
                ms[t as int],
            ).len());
            assert(sorted_fn_names_of(ms[t as int]).len() == ms[t as int].functions.len());
            assert(strings_v.deep_view() =~= sv0.push(ms[t as int].strings)) by {
                assert(ms[t as int].strings == module.strings.deep_view());
            }
            assert(module_names_v.deep_view() =~= mn0.push(ms[t as int].name));
            assert(adt_names_of(ms[t as int].adts).take(ms[t as int].adts.len() as int)
                =~= adt_names_of(ms[t as int].adts));
            assert(module_ctors(ms[t as int], base.datatype_names.len() as int) == ctor_chunk(
                ms[t as int].adts,
                dt_base,
                ms[t as int].adts.len() as int,
            ));
            assert(sv0.push(ms[t as int].strings) =~= next.strings);
            assert(mn0.push(ms[t as int].name) =~= next.module_names);
            assert(function_modules_v@ == next.function_modules);
            assert(function_module_names_v.deep_view() == next.function_module_names);
            assert(function_names_v.deep_view() == next.function_names);
            assert(datatype_modules_v@ == next.datatype_modules);
            assert(datatype_module_names_v.deep_view() == next.datatype_module_names);
            assert(datatype_names_v.deep_view() == next.datatype_names);
            assert(constructor_modules_v@ == next.constructor_modules);
            assert(constructor_module_names_v.deep_view() == next.constructor_module_names);
            assert(constructor_datatypes_v@ == next.constructor_datatypes);
            assert(constructor_datatype_names_v.deep_view() == next.constructor_datatype_names);
            assert(constructor_names_v.deep_view() == next.constructor_names);
            assert(constructor_fields_v.deep_view() == next.constructor_fields);
        }
        t = t + 1;
    }
    proof {
        assert(ms.take(ms.len() as int) =~= ms);
    }
    let context = Context {
        module_names: module_names_v,
        function_modules: function_modules_v,
        function_module_names: function_module_names_v,
        function_names: function_names_v,
        datatype_modules: datatype_modules_v,
        datatype_module_names: datatype_module_names_v,
        datatype_names: datatype_names_v,
        constructor_modules: constructor_modules_v,
        constructor_module_names: constructor_module_names_v,
        constructor_datatypes: constructor_datatypes_v,
        constructor_datatype_names: constructor_datatype_names_v,
        constructor_names: constructor_names_v,
        constructor_fields: constructor_fields_v,
        strings: strings_v,
    };
    proof {
        assert(context@ == spec_context(ms));
        lemma_spec_context_wf(ms);
        assert(fn_bodies(ms.take(0)) =~= Seq::<(int, Seq<SpecRawInstr>)>::empty());
    }
    let mut functions: Vec<Vec<Instruction>> = Vec::new();
    let mut t: usize = 0;
    while t < modules.len()
        invariant
            t <= ms.len(),
            ms == modules.deep_view(),
            ms.len() == modules@.len(),
            fn_names_unique(ms),
            deps_ok(ms),
            adts_agree(ms),
            provided_elements_sorted(ms),
            context@ == spec_context(ms),
            context_tables_wf(context@),
            sorted_per_module@.len() == ms.len(),
            forall|a: int|
                0 <= a < ms.len() ==> (#[trigger] sorted_per_module@[a]).deep_view()
                    == sorted_fn_names_of(ms[a]),
            functions.deep_view().len() == fn_bodies(ms.take(t as int)).len(),
            forall|k: int|
                0 <= k < fn_bodies(ms.take(t as int)).len() ==> Some(
                    #[trigger] functions.deep_view()[k],
                ) == resolve_body(
                    spec_context(ms),
                    fn_bodies(ms.take(t as int))[k].0,
                    fn_bodies(ms.take(t as int))[k].1,
                ),
        decreases ms.len() - t,
    {
        let module = &modules[t];
        let ghost prev = fn_bodies(ms.take(t as int));
        proof {
            assert(ms[t as int] == modules@[t as int].deep_view());
            assert(sorted_per_module@[t as int].deep_view() == sorted_fn_names_of(ms[t as int]));
        }
        let mut k: usize = 0;
        while k < sorted_per_module[t].len()
            invariant
                k <= sorted_per_module@[t as int]@.len(),
                sorted_per_module@.len() == ms.len(),
                t < ms.len(),
                ms == modules.deep_view(),
                ms.len() == modules@.len(),
                fn_names_unique(ms),
                deps_ok(ms),
                adts_agree(ms),
                provided_elements_sorted(ms),
                context@ == spec_context(ms),
                context_tables_wf(context@),
                module.deep_view() == ms[t as int],
                module.functions@.len() == ms[t as int].functions.len(),
                sorted_per_module@[t as int].deep_view() == sorted_fn_names_of(ms[t as int]),
                sorted_per_module@[t as int]@.len() == sorted_fn_names_of(ms[t as int]).len(),
                prev == fn_bodies(ms.take(t as int)),
                functions.deep_view().len() == prev.len() + k,
                forall|j: int|
                    0 <= j < prev.len() ==> Some(#[trigger] functions.deep_view()[j])
                        == resolve_body(spec_context(ms), prev[j].0, prev[j].1),
                forall|j: int|
                    0 <= j < k ==> Some(#[trigger] functions.deep_view()[prev.len() + j])
                        == resolve_body(
                        spec_context(ms),
                        t as int,
                        fn_body_of(ms[t as int], sorted_fn_names_of(ms[t as int])[j]),
                    ),
            decreases sorted_per_module@[t as int]@.len() - k,
        {
            let name = &sorted_per_module[t][k];
            proof {
                assert(name@ == sorted_per_module@[t as int].deep_view()[k as int]);
                assert(name@ == sorted_fn_names_of(ms[t as int])[k as int]);
            }
            let fidx = match find_function(&module.functions, name) {
                Some(fi) => fi,
                None => {
                    proof {
                        broadcast use vstd::seq_lib::group_to_multiset_ensures;

                        crate::lex::lemma_lex_total_ordering();
                        let fnames = fn_names_of(ms[t as int]);
                        fnames.lemma_sort_by_ensures(crate::lex::lex_leq_fn());
                        let srt = sorted_fn_names_of(ms[t as int]);
                        assert(srt.contains(name@)) by {
                            assert(srt[k as int] == name@);
                        }
                        assert(srt.to_multiset().count(name@) > 0);
                        assert(fnames.to_multiset().count(name@) > 0);
                        assert(fnames.contains(name@));
                        let w = choose|w: int| 0 <= w < fnames.len() && fnames[w] == name@;
                        let p = fn_pair_pred(ms[t as int].functions, name@);
                        crate::seqs::lemma_first_index(
                            ms[t as int].functions.len() as int,
                            p,
                        );
                        assert(fnames[w] == ms[t as int].functions[w].0);
                        assert(p(w));
                        assert(false);
                    }
                    return Err(LinkError::UnresolvedGlobal { name: crate::lex::clone_string(name) });
                },
            };
            proof {
                let p = fn_pair_pred(ms[t as int].functions, name@);
                crate::seqs::lemma_first_index(ms[t as int].functions.len() as int, p);
                assert(fidx < ms[t as int].functions.len());
                assert(ms[t as int].functions[fidx as int] == module.functions@[
                    fidx as int].deep_view());
                assert(fn_body_of(ms[t as int], name@) == ms[t as int].functions[fidx as int].1);
                assert(module.functions@[fidx as int].1.deep_view() == ms[t as int].functions[
                    fidx as int].1);
            }
            match compile(ModuleIndex(t), &module.functions[fidx].1, &context) {
                Ok(ins) => {
                    let ghost fdv0 = functions.deep_view();
                    functions.push(ins);
                    proof {
                        assert(functions.deep_view() =~= fdv0.push(ins.deep_view()));
                    }
                },
                Err(e) => {
                    proof {
                        assert(resolve_body(
                            spec_context(ms),
                            t as int,
                            ms[t as int].functions[fidx as int].1,
                        ) is None);
                        assert(!resolvable(ms)) by {
                            if resolvable(ms) {
                                assert(resolve_body(
                                    spec_context(ms),
                                    t as int,
                                    ms[t as int].functions[fidx as int].1,
                                ) is Some);
                            }
                        }
                    }
                    return Err(e);
                },
            }
            k = k + 1;
        }
        proof {
            lemma_fn_bodies_take_step(ms, t as int);
            let mb = module_bodies(t as int, ms[t as int]);
            assert(mb.len() == sorted_fn_names_of(ms[t as int]).len());
            assert forall|j: int|
                0 <= j < fn_bodies(ms.take(t + 1)).len() implies Some(
                #[trigger] functions.deep_view()[j],
            ) == resolve_body(
                spec_context(ms),
                fn_bodies(ms.take(t + 1))[j].0,
                fn_bodies(ms.take(t + 1))[j].1,
            ) by {
                if j < prev.len() {
                    assert(fn_bodies(ms.take(t + 1))[j] == prev[j]);
                    assert(Some(functions.deep_view()[j]) == resolve_body(
                        spec_context(ms),
                        prev[j].0,
                        prev[j].1,
                    ));
                } else {
                    let jj = j - prev.len();
                    assert(fn_bodies(ms.take(t + 1))[j] == mb[jj]);
                    assert(mb[jj] == (
                        t as int,
                        fn_body_of(ms[t as int], sorted_fn_names_of(ms[t as int])[jj]),
                    ));
                    assert(Some(functions.deep_view()[prev.len() + jj]) == resolve_body(
                        spec_context(ms),
                        t as int,
                        fn_body_of(ms[t as int], sorted_fn_names_of(ms[t as int])[jj]),
                    ));
                }
            }
        }
        t = t + 1;
    }
    proof {
        assert(ms.take(ms.len() as int) =~= ms);
        assert forall|t2: int, k2: int|
            0 <= t2 < ms.len() && 0 <= k2 < sorted_fn_names_of(ms[t2]).len() implies resolve_body(
            spec_context(ms),
            t2,
            fn_body_of(ms[t2], #[trigger] sorted_fn_names_of(ms[t2])[k2]),
        ) is Some by {
            lemma_fn_bodies_take_step(ms, t2);
            lemma_fn_bodies_prefix(ms, t2 + 1);
            let prev2 = fn_bodies(ms.take(t2));
            let mb = module_bodies(t2, ms[t2]);
            let pos = prev2.len() + k2;
            assert(pos < fn_bodies(ms.take(t2 + 1)).len());
            assert(fn_bodies(ms)[pos] == fn_bodies(ms.take(t2 + 1))[pos]);
            assert(fn_bodies(ms.take(t2 + 1))[pos] == mb[k2]);
            assert(mb[k2] == (t2, fn_body_of(ms[t2], sorted_fn_names_of(ms[t2])[k2])));
            assert(Some(functions.deep_view()[pos]) == resolve_body(
                spec_context(ms),
                fn_bodies(ms)[pos].0,
                fn_bodies(ms)[pos].1,
            ));
        }
        lemma_resolvable_from_sorted(ms, spec_context(ms));
    }
    Ok((Program { functions }, context))
}

/// Copy one resolved instruction, keeping its view.
pub fn clone_instruction(i: &Instruction) -> (r: Instruction)
    ensures
        r.deep_view() == i.deep_view(),
{
    match i {
        Instruction::PushInt(n) => Instruction::PushInt(*n),
        Instruction::PushString(x) => Instruction::PushString(*x),
        Instruction::LoadLocal(x) => Instruction::LoadLocal(*x),
        Instruction::StoreLocal(x) => Instruction::StoreLocal(*x),
        Instruction::LoadReg(x) => Instruction::LoadReg(*x),
        Instruction::StoreReg(x) => Instruction::StoreReg(*x),
        Instruction::Unless(x) => Instruction::Unless(*x),
        Instruction::Jump(x) => Instruction::Jump(*x),
        Instruction::Call(x) => Instruction::Call(*x),
        Instruction::LoadName(x) => Instruction::LoadName(*x),
        Instruction::LoadIntrinsic(nm) => Instruction::LoadIntrinsic(crate::lex::clone_string(nm)),
        Instruction::Instantiate(x) => Instruction::Instantiate(*x),
        Instruction::IsVariant(x) => Instruction::IsVariant(*x),
        Instruction::Field(x, k) => Instruction::Field(*x, *k),
    }
}

/// Linking is deterministic: the tables and the resolved program that
/// `link` promises are a function of the supplied modules alone, so two
/// runs over the same modules agree on every index, every name row and
/// every resolved instruction.
pub proof fn lemma_link_deterministic(
    ms: Seq<SpecModule>,
    c1: SpecContext,
    p1: Seq<Seq<SpecInstr>>,
    c2: SpecContext,
    p2: Seq<Seq<SpecInstr>>,
)
    requires
        c1 == spec_context(ms),
        c2 == spec_context(ms),
        p1.len() == fn_bodies(ms).len(),
        p2.len() == fn_bodies(ms).len(),
        forall|k: int|
            0 <= k < fn_bodies(ms).len() ==> Some(#[trigger] p1[k]) == resolve_body(
                spec_context(ms),
                fn_bodies(ms)[k].0,
                fn_bodies(ms)[k].1,
            ),
        forall|k: int|
            0 <= k < fn_bodies(ms).len() ==> Some(#[trigger] p2[k]) == resolve_body(
                spec_context(ms),
                fn_bodies(ms)[k].0,
                fn_bodies(ms)[k].1,
            ),
    ensures
        c1 == c2,
        p1 == p2,
{
    assert forall|k: int| 0 <= k < p1.len() implies p1[k] == p2[k] by {
        assert(Some(p1[k]) == Some(p2[k]));
    }
    assert(p1 =~= p2);
}

/// No program links while any expected-ADT declaration disagrees with its
/// provider: agreement is part of what linking succeeds on.
pub proof fn lemma_adt_agreement_soundness(ms: Seq<SpecModule>)
    ensures
        !adts_agree(ms) ==> !wf_link(ms),
{
}

} // verus!
