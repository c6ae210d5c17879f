//! Records, while entrypoints are compiled, where validation builtins read
//! their arguments, and turns the record into the state-decoder metadata.
use vstd::prelude::*;
use crate::ast::{type_name_of, FunctionAst, StructFieldSpec};

verus! {

/// The validation builtins whose argument reads are recorded.
#[derive(Clone, Copy, Debug, PartialEq, Eq, Structural)]
pub enum ValidationBuiltinKind {
    ValidateOutputState,
    ValidateOutputStateWithTemplate,
    ReadInputState,
    ReadInputStateWithTemplate,
}

/// What a recorded argument read observes.
#[derive(Clone, Copy, Debug, PartialEq, Eq, Structural)]
pub enum ValidationObservedField {
    OutputIndex,
    InputIndex,
    EncodedState,
    TemplatePrefix,
    TemplateSuffix,
    TemplateHash,
}

/// One field of an encoded state layout: its name and the text of its type.
#[derive(Debug)]
pub struct CompiledStateFieldLayout {
    pub name: String,
    pub type_text: String,
}

/// The layout of an encoded state: its fields in order.
#[derive(Debug)]
pub struct CompiledStateLayoutSchema {
    pub fields: Vec<CompiledStateFieldLayout>,
}

/// A recorded argument read, placed in the whole script.
#[derive(Debug)]
pub struct CompiledValidationArgCapture {
    pub bytecode_offset: usize,
    pub field: ValidationObservedField,
    pub state_layout_id: Option<usize>,
}

/// A recorded validation call with its argument reads.
#[derive(Debug)]
pub struct CompiledValidationCall {
    pub builtin_kind: ValidationBuiltinKind,
    pub captures: Vec<CompiledValidationArgCapture>,
}

/// The state-decoder metadata: the distinct state layouts, and the
/// validation calls whose reads refer to them by index.
#[derive(Debug)]
pub struct CompiledStateDecoderInfo {
    pub state_layouts: Vec<CompiledStateLayoutSchema>,
    pub validation_calls: Vec<CompiledValidationCall>,
}

/// View of a layout: name and type text of each field.
pub type LayoutV = Seq<(Seq<char>, Seq<char>)>;

pub open spec fn layout_view(l: CompiledStateLayoutSchema) -> LayoutV {
    l.fields@.map_values(|f: CompiledStateFieldLayout| (f.name@, f.type_text@))
}

pub open spec fn layouts_view(s: Seq<CompiledStateLayoutSchema>) -> Seq<LayoutV> {
    s.map_values(|l: CompiledStateLayoutSchema| layout_view(l))
}

/// View of a recorded read before placement: its offset within the
/// entrypoint, what it observes, and the layout of an encoded state.
pub struct CaptureV {
    pub offset: usize,
    pub field: ValidationObservedField,
    pub layout: Option<LayoutV>,
}

/// View of a recorded call.
pub struct CallV {
    pub kind: ValidationBuiltinKind,
    pub captures: Seq<CaptureV>,
}

/// View of a recorded entrypoint.
pub struct EntrypointV {
    pub name: Seq<char>,
    pub start: Option<usize>,
    pub calls: Seq<CallV>,
}

/// View of a placed read.
pub struct CompiledCaptureV {
    pub offset: int,
    pub field: ValidationObservedField,
    pub layout_id: Option<int>,
}

/// View of a placed call.
pub struct CompiledCallV {
    pub kind: ValidationBuiltinKind,
    pub captures: Seq<CompiledCaptureV>,
}

/// View of the metadata.
pub struct InfoV {
    pub layouts: Seq<LayoutV>,
    pub calls: Seq<CompiledCallV>,
}

pub open spec fn compiled_capture_view(c: CompiledValidationArgCapture) -> CompiledCaptureV {
    CompiledCaptureV {
        offset: c.bytecode_offset as int,
        field: c.field,
        layout_id: match c.state_layout_id {
            Some(i) => Some(i as int),
            None => None,
        },
    }
}

pub open spec fn compiled_call_view(c: CompiledValidationCall) -> CompiledCallV {
    CompiledCallV {
        kind: c.builtin_kind,
        captures: c.captures@.map_values(|x: CompiledValidationArgCapture| compiled_capture_view(x)),
    }
}

pub open spec fn info_view(i: CompiledStateDecoderInfo) -> InfoV {
    InfoV {
        layouts: layouts_view(i.state_layouts@),
        calls: i.validation_calls@.map_values(|c: CompiledValidationCall| compiled_call_view(c)),
    }
}

/// Where an entrypoint's code starts in the whole script (0 where it was
/// never set).
pub open spec fn start_of(e: EntrypointV) -> int {
    match e.start {
        Some(s) => s as int,
        None => 0,
    }
}

/// All recorded calls, entrypoint by entrypoint, each with where its
/// entrypoint starts.
pub open spec fn staged_calls(eps: Seq<EntrypointV>) -> Seq<(CallV, int)>
    decreases eps.len(),
{
    if eps.len() == 0 {
        Seq::empty()
    } else {
        staged_calls(eps.drop_last()) + eps.last().calls.map_values(|c: CallV| (c, start_of(eps.last())))
    }
}

/// Adds a layout to the list of distinct layouts unless an equal one is
/// there; gives the list and the layout's index in it.
pub open spec fn intern(layouts: Seq<LayoutV>, l: LayoutV) -> (Seq<LayoutV>, int) {
    if layouts.contains(l) {
        (layouts, layouts.index_of(l))
    } else {
        (layouts.push(l), layouts.len() as int)
    }
}

/// Places the reads of one call: each offset moves by `start`, each layout
/// is interned.
pub open spec fn intern_captures(layouts: Seq<LayoutV>, caps: Seq<CaptureV>, start: int) -> (Seq<LayoutV>, Seq<CompiledCaptureV>)
    decreases caps.len(),
{
    if caps.len() == 0 {
        (layouts, Seq::empty())
    } else {
        let (ls, out) = intern_captures(layouts, caps.drop_last(), start);
        let c = caps.last();
        match c.layout {
            None => (ls, out.push(CompiledCaptureV { offset: c.offset + start, field: c.field, layout_id: None })),
            Some(l) => {
                let (ls2, id) = intern(ls, l);
                (ls2, out.push(CompiledCaptureV { offset: c.offset + start, field: c.field, layout_id: Some(id) }))
            },
        }
    }
}

/// Places all recorded calls in order.
pub open spec fn intern_calls(calls: Seq<(CallV, int)>) -> (Seq<LayoutV>, Seq<CompiledCallV>)
    decreases calls.len(),
{
    if calls.len() == 0 {
        (Seq::empty(), Seq::empty())
    } else {
        let (ls, out) = intern_calls(calls.drop_last());
        let (c, start) = calls.last();
        let (ls2, caps) = intern_captures(ls, c.captures, start);
        (ls2, out.push(CompiledCallV { kind: c.kind, captures: caps }))
    }
}

/// The metadata that the recorded entrypoints give.
pub open spec fn decoder_info(eps: Seq<EntrypointV>) -> InfoV {
    let (ls, calls) = intern_calls(staged_calls(eps));
    InfoV { layouts: ls, calls }
}

/// A read recorded while an entrypoint was compiled.
#[derive(Debug)]
pub struct StagedValidationArgCapture {
    bytecode_offset: usize,
    field: ValidationObservedField,
    layout: Option<CompiledStateLayoutSchema>,
}

impl View for StagedValidationArgCapture {
    type V = CaptureV;

    closed spec fn view(&self) -> CaptureV {
        CaptureV {
            offset: self.bytecode_offset,
            field: self.field,
            layout: match self.layout {
                Some(l) => Some(layout_view(l)),
                None => None,
            },
        }
    }
}

pub open spec fn captures_view(s: Seq<StagedValidationArgCapture>) -> Seq<CaptureV> {
    s.map_values(|c: StagedValidationArgCapture| c@)
}

/// The layout text of a struct's fields: each name with its type's text.
pub open spec fn fields_layout(fields: Seq<StructFieldSpec>) -> LayoutV {
    fields.map_values(|f: StructFieldSpec| (f.name@, type_name_of(f.type_ref@)))
}

impl StagedValidationArgCapture {
    /// A read of the value on top of the stack at `bytecode_offset`.
    pub fn top_of_stack(bytecode_offset: usize, field: ValidationObservedField) -> (r: Self)
        ensures
            r@ == (CaptureV { offset: bytecode_offset, field, layout: None }),
    {
        StagedValidationArgCapture { bytecode_offset, field, layout: None }
    }

    /// A read of an encoded state with the given field layout at
    /// `bytecode_offset`.
    pub fn encoded_state(bytecode_offset: usize, layout_fields: &[StructFieldSpec]) -> (r: Self)
        ensures
            r@ == (CaptureV {
                offset: bytecode_offset,
                field: ValidationObservedField::EncodedState,
                layout: Some(fields_layout(layout_fields@)),
            }),
    {
        let mut fields: Vec<CompiledStateFieldLayout> = Vec::new();
        let mut i: usize = 0;
        while i < layout_fields.len()
            invariant
                i <= layout_fields@.len(),
                layout_view(CompiledStateLayoutSchema { fields }) == fields_layout(layout_fields@.take(i as int)),
            decreases layout_fields@.len() - i,
        {
            let f = CompiledStateFieldLayout {
                name: layout_fields[i].name.clone(),
                type_text: layout_fields[i].type_ref.type_text(),
            };
            let ghost before = fields@;
            let ghost item = (f.name@, f.type_text@);
            fields.push(f);
            proof {
                let mv = |x: CompiledStateFieldLayout| (x.name@, x.type_text@);
                assert(fields@.map_values(mv) =~= before.map_values(mv).push(item));
                assert(layout_fields@.take(i + 1) =~= layout_fields@.take(i as int).push(layout_fields@[i as int]));
                assert(layout_view(CompiledStateLayoutSchema { fields }) =~= fields_layout(layout_fields@.take(i + 1)));
            }
            i = i + 1;
        }
        assert(layout_fields@.take(layout_fields@.len() as int) =~= layout_fields@);
        StagedValidationArgCapture {
            bytecode_offset,
            field: ValidationObservedField::EncodedState,
            layout: Some(CompiledStateLayoutSchema { fields }),
        }
    }
}


/// A recorded validation call.
#[derive(Debug)]
struct StagedValidationCall {
    builtin_kind: ValidationBuiltinKind,
    captures: Vec<StagedValidationArgCapture>,
}

/// A recorded entrypoint.
#[derive(Debug)]
struct StagedStateDecoderEntrypoint {
    name: String,
    bytecode_start: Option<usize>,
    validation_calls: Vec<StagedValidationCall>,
}

spec fn call_view(c: StagedValidationCall) -> CallV {
    CallV { kind: c.builtin_kind, captures: captures_view(c.captures@) }
}

spec fn entrypoint_view(e: StagedStateDecoderEntrypoint) -> EntrypointV {
    EntrypointV {
        name: e.name@,
        start: e.bytecode_start,
        calls: e.validation_calls@.map_values(|c: StagedValidationCall| call_view(c)),
    }
}

/// Collects, entrypoint by entrypoint, the validation calls and where they
/// read their arguments.
#[derive(Debug)]
pub struct StateDecoderRecorder {
    entrypoints: Vec<StagedStateDecoderEntrypoint>,
}

impl View for StateDecoderRecorder {
    type V = Seq<EntrypointV>;

    closed spec fn view(&self) -> Seq<EntrypointV> {
        self.entrypoints@.map_values(|e: StagedStateDecoderEntrypoint| entrypoint_view(e))
    }
}

/// Every placed offset fits in a `usize`.
pub open spec fn offsets_fit(eps: Seq<EntrypointV>) -> bool {
    forall|a: int, b: int, c: int|
        0 <= a < eps.len() && 0 <= b < eps[a].calls.len() && 0 <= c < eps[a].calls[b].captures.len()
            ==> #[trigger] eps[a].calls[b].captures[c].offset + start_of(eps[a]) <= usize::MAX
}

/// `j` is the first entrypoint named `name`.
pub open spec fn is_first_named(eps: Seq<EntrypointV>, name: Seq<char>, j: int) -> bool {
    0 <= j < eps.len() && eps[j].name == name && forall|k: int| 0 <= k < j ==> eps[k].name != name
}

/// A copy of a layout.
fn clone_layout(l: &CompiledStateLayoutSchema) -> (r: CompiledStateLayoutSchema)
    ensures
        layout_view(r) == layout_view(*l),
{
    let mut fields: Vec<CompiledStateFieldLayout> = Vec::new();
    let mut i: usize = 0;
    while i < l.fields.len()
        invariant
            i <= l.fields@.len(),
            layout_view(CompiledStateLayoutSchema { fields }) == layout_view(*l).take(i as int),
        decreases l.fields@.len() - i,
    {
        let f = CompiledStateFieldLayout { name: l.fields[i].name.clone(), type_text: l.fields[i].type_text.clone() };
        let ghost before = fields@;
        let ghost item = (f.name@, f.type_text@);
        fields.push(f);
        proof {
            let mv = |x: CompiledStateFieldLayout| (x.name@, x.type_text@);
            assert(fields@.map_values(mv) =~= before.map_values(mv).push(item));
            assert(layout_view(CompiledStateLayoutSchema { fields }) =~= layout_view(*l).take(i + 1));
        }
        i = i + 1;
    }
    assert(layout_view(*l).take(l.fields@.len() as int) =~= layout_view(*l));
    CompiledStateLayoutSchema { fields }
}

/// Whether two layouts list the same fields.
fn layouts_equal(a: &CompiledStateLayoutSchema, b: &CompiledStateLayoutSchema) -> (r: bool)
    ensures
        r == (layout_view(*a) == layout_view(*b)),
{
    if a.fields.len() != b.fields.len() {
        assert(layout_view(*a).len() != layout_view(*b).len());
        return false;
    }
    let mut i: usize = 0;
    while i < a.fields.len()
        invariant
            i <= a.fields@.len(),
            a.fields@.len() == b.fields@.len(),
            forall|j: int| 0 <= j < i ==> layout_view(*a)[j] == layout_view(*b)[j],
        decreases a.fields@.len() - i,
    {
        if a.fields[i].name != b.fields[i].name || a.fields[i].type_text != b.fields[i].type_text {
            assert(layout_view(*a)[i as int] != layout_view(*b)[i as int]);
            return false;
        }
        i = i + 1;
    }
    assert(layout_view(*a) =~= layout_view(*b));
    true
}

/// Places one call's reads: offsets move by `start`, layouts are interned
/// into `layouts`.
fn place_captures(
    layouts: &mut Vec<CompiledStateLayoutSchema>,
    caps: &Vec<StagedValidationArgCapture>,
    start: usize,
) -> (r: Vec<CompiledValidationArgCapture>)
    requires
        layouts_view(old(layouts)@).no_duplicates(),
        forall|c: int| 0 <= c < caps@.len() ==> #[trigger] caps@[c]@.offset + start <= usize::MAX,
    ensures
        layouts_view(final(layouts)@).no_duplicates(),
        (layouts_view(final(layouts)@), r@.map_values(|x: CompiledValidationArgCapture| compiled_capture_view(x)))
            == intern_captures(layouts_view(old(layouts)@), captures_view(caps@), start as int),
{
    let mut out: Vec<CompiledValidationArgCapture> = Vec::new();
    let mut i: usize = 0;
    let ghost cv = captures_view(caps@);
    let ghost mv = |x: CompiledValidationArgCapture| compiled_capture_view(x);
    assert(cv.take(0) =~= Seq::<CaptureV>::empty());
    while i < caps.len()
        invariant
            i <= caps@.len(),
            cv == captures_view(caps@),
            mv == (|x: CompiledValidationArgCapture| compiled_capture_view(x)),
            forall|c: int| 0 <= c < caps@.len() ==> #[trigger] caps@[c]@.offset + start <= usize::MAX,
            layouts_view(layouts@).no_duplicates(),
            out@.len() == i,
            (layouts_view(layouts@), out@.map_values(mv)) == intern_captures(layouts_view(old(layouts)@), cv.take(i as int), start as int),
        decreases caps@.len() - i,
    {
        proof {
            assert(cv.take(i + 1).drop_last() =~= cv.take(i as int));
            assert(cv.take(i + 1).last() == caps@[i as int]@);
        }
        let cap = &caps[i];
        let ghost before_out = out@;
        assert(caps@[i as int]@.offset + start <= usize::MAX);
        let offset = cap.bytecode_offset + start;
        let id = match &cap.layout {
            None => None,
            Some(layout) => {
                let mut hit = false;
                let mut k: usize = 0;
                while k < layouts.len() && !hit
                    invariant
                        k <= layouts@.len(),
                        hit ==> k < layouts@.len() && layout_view(layouts@[k as int]) == layout_view(*layout),
                        forall|q: int| 0 <= q < k ==> layout_view(layouts@[q]) != layout_view(*layout),
                    decreases layouts@.len() - k, if hit { 0int } else { 1int },
                {
                    if layouts_equal(&layouts[k], layout) {
                        hit = true;
                    } else {
                        k = k + 1;
                    }
                }
                let found: Option<usize> = if hit { Some(k) } else { None };
                match found {
                    Some(k) => {
                        proof {
                            let lv = layouts_view(layouts@);
                            assert(lv[k as int] == layout_view(*layout));
                            assert(lv.contains(layout_view(*layout)));
                            let q = lv.index_of(layout_view(*layout));
                            assert(lv[q] == layout_view(*layout));
                            if q != k {
                                assert(lv[q] != lv[k as int]);
                            }
                        }
                        Some(k)
                    },
                    None => {
                        proof {
                            let lv = layouts_view(layouts@);
                            assert(k == layouts@.len());
                            assert forall|q: int| 0 <= q < lv.len() implies lv[q] != layout_view(*layout) by {
                                assert(lv[q] == layout_view(layouts@[q]));
                            }
                        }
                        let copy = clone_layout(layout);
                        let ghost lbefore = layouts@;
                        layouts.push(copy);
                        proof {
                            assert(layouts_view(layouts@) =~= layouts_view(lbefore).push(layout_view(*layout)));
                            let lv = layouts_view(layouts@);
                            assert forall|a: int, b: int| 0 <= a < lv.len() && 0 <= b < lv.len() && a != b implies lv[a] != lv[b] by {
                                if a < lv.len() - 1 && b < lv.len() - 1 {
                                    assert(layouts_view(lbefore)[a] != layouts_view(lbefore)[b]);
                                }
                            }
                        }
                        Some(layouts.len() - 1)
                    },
                }
            },
        };
        out.push(CompiledValidationArgCapture { bytecode_offset: offset, field: cap.field, state_layout_id: id });
        proof {
            assert(out@.map_values(mv) =~= before_out.map_values(mv).push(mv(out@[i as int])));
        }
        i = i + 1;
    }
    assert(cv.take(caps@.len() as int) =~= cv);
    out
}

impl StateDecoderRecorder {
    /// An empty record.
    pub fn new() -> (r: Self)
        ensures
            r@ == Seq::<EntrypointV>::empty(),
    {
        let r = StateDecoderRecorder { entrypoints: Vec::new() };
        assert(r@ =~= Seq::<EntrypointV>::empty());
        r
    }

    /// Starts recording an entrypoint, with no start offset and no calls
    /// yet.
    pub fn begin_entrypoint(&mut self, function: &FunctionAst)
        ensures
            final(self)@ == old(self)@.push(EntrypointV { name: function.name@, start: None, calls: Seq::empty() }),
    {
        let e = StagedStateDecoderEntrypoint { name: function.name.clone(), bytecode_start: None, validation_calls: Vec::new() };
        let ghost before = self.entrypoints@;
        self.entrypoints.push(e);
        proof {
            let mv = |x: StagedStateDecoderEntrypoint| entrypoint_view(x);
            assert(entrypoint_view(e).calls =~= Seq::<CallV>::empty());
            assert(self.entrypoints@.map_values(mv) =~= before.map_values(mv).push(entrypoint_view(e)));
        }
    }

    /// Finishing an entrypoint records nothing.
    pub fn finish_entrypoint(&mut self, _script_len: usize)
        ensures
            final(self)@ == old(self)@,
    {
    }

    /// Sets where the first entrypoint named `name` starts in the whole
    /// script; nothing changes where no entrypoint has that name.
    pub fn set_entrypoint_start(&mut self, name: &str, bytecode_start: usize)
        ensures
            final(self)@.len() == old(self)@.len(),
            forall|j: int| 0 <= j < old(self)@.len() ==> #[trigger] final(self)@[j] == (if is_first_named(old(self)@, name@, j) {
                EntrypointV { start: Some(bytecode_start), ..old(self)@[j] }
            } else {
                old(self)@[j]
            }),
    {
        let key = name.to_owned();
        let ghost eps = self@;
        let mut i: usize = 0;
        while i < self.entrypoints.len()
            invariant
                i <= self.entrypoints@.len(),
                eps == self@,
                eps == old(self)@,
                key@ == name@,
                self@.len() == self.entrypoints@.len(),
                forall|k: int| 0 <= k < i ==> eps[k].name != key@,
            decreases self.entrypoints@.len() - i,
        {
            assert(eps[i as int].name == self.entrypoints@[i as int].name@);
            if self.entrypoints[i].name == key {
                let ghost before = self.entrypoints@;
                let mut e = self.entrypoints.remove(i);
                e.bytecode_start = Some(bytecode_start);
                let ghost ev = entrypoint_view(e);
                self.entrypoints.insert(i, e);
                proof {
                    assert(self.entrypoints@ =~= before.update(i as int, e));
                    let mv = |x: StagedStateDecoderEntrypoint| entrypoint_view(x);
                    assert(self@ =~= eps.update(i as int, ev));
                    assert forall|j: int| 0 <= j < eps.len() implies #[trigger] self@[j] == (if is_first_named(eps, name@, j) {
                        EntrypointV { start: Some(bytecode_start), ..eps[j] }
                    } else {
                        eps[j]
                    }) by {
                        if j == i {
                            assert(is_first_named(eps, name@, j));
                        } else if j > i {
                            assert(eps[i as int].name == name@);
                            assert(!is_first_named(eps, name@, j));
                        }
                    }
                }
                return;
            }
            i = i + 1;
        }
    }

    /// Records a validation call in the entrypoint being compiled (the last
    /// one begun); nothing is recorded before any entrypoint was begun.
    pub fn record_validation_call(&mut self, builtin_kind: ValidationBuiltinKind, captures: Vec<StagedValidationArgCapture>)
        ensures
            old(self)@.len() == 0 ==> final(self)@ == old(self)@,
            old(self)@.len() > 0 ==> final(self)@ == old(self)@.update(
                old(self)@.len() - 1,
                EntrypointV {
                    calls: old(self)@.last().calls.push(CallV { kind: builtin_kind, captures: captures_view(captures@) }),
                    ..old(self)@.last()
                },
            ),
    {
        let n = self.entrypoints.len();
        if n == 0 {
            return;
        }
        let ghost before = self.entrypoints@;
        let mut e = self.entrypoints.pop().unwrap();
        let ghost old_calls = e.validation_calls@;
        let call = StagedValidationCall { builtin_kind, captures };
        let ghost cv = call_view(call);
        e.validation_calls.push(call);
        let ghost ev = entrypoint_view(e);
        self.entrypoints.push(e);
        proof {
            let mc = |c: StagedValidationCall| call_view(c);
            assert(e.validation_calls@.map_values(mc) =~= old_calls.map_values(mc).push(cv));
            assert(self.entrypoints@ =~= before.update(n - 1, e));
            assert(self@ =~= old(self)@.update(n - 1, ev));
        }
    }

    /// Turns the record into the state-decoder metadata: every read moves by
    /// where its entrypoint starts (0 where that was never set), and every
    /// encoded-state layout is stored once and referred to by index.
    pub fn into_info(self) -> (r: CompiledStateDecoderInfo)
        requires
            offsets_fit(self@),
        ensures
            info_view(r) == decoder_info(self@),
    {
        let ghost eps = self@;
        let mut layouts: Vec<CompiledStateLayoutSchema> = Vec::new();
        let mut calls: Vec<CompiledValidationCall> = Vec::new();
        let ghost mc = |c: CompiledValidationCall| compiled_call_view(c);
        let mut a: usize = 0;
        assert(eps.take(0) =~= Seq::<EntrypointV>::empty());
        while a < self.entrypoints.len()
            invariant
                a <= self.entrypoints@.len(),
                eps == self@,
                eps.len() == self.entrypoints@.len(),
                offsets_fit(eps),
                mc == (|c: CompiledValidationCall| compiled_call_view(c)),
                layouts_view(layouts@).no_duplicates(),
                (layouts_view(layouts@), calls@.map_values(mc)) == intern_calls(staged_calls(eps.take(a as int))),
            decreases self.entrypoints@.len() - a,
        {
            let e = &self.entrypoints[a];
            let start = match e.bytecode_start {
                Some(s) => s,
                None => 0,
            };
            let ghost ea = eps[a as int];
            assert(ea == entrypoint_view(*e));
            assert(start == start_of(ea));
            let ghost base = staged_calls(eps.take(a as int));
            let ghost mine = ea.calls.map_values(|c: CallV| (c, start_of(ea)));
            proof {
                assert(eps.take(a + 1).drop_last() =~= eps.take(a as int));
                assert(eps.take(a + 1).last() == ea);
                assert(mine.take(0) =~= Seq::<(CallV, int)>::empty());
                assert(base + mine.take(0) =~= base);
            }
            let mut b: usize = 0;
            while b < e.validation_calls.len()
                invariant
                    b <= e.validation_calls@.len(),
                    a < eps.len(),
                    ea == eps[a as int],
                    ea == entrypoint_view(*e),
                    start == start_of(ea),
                    mine == ea.calls.map_values(|c: CallV| (c, start_of(ea))),
                    offsets_fit(eps),
                    mc == (|c: CompiledValidationCall| compiled_call_view(c)),
                    layouts_view(layouts@).no_duplicates(),
                    (layouts_view(layouts@), calls@.map_values(mc)) == intern_calls(base + mine.take(b as int)),
                decreases e.validation_calls@.len() - b,
            {
                let call = &e.validation_calls[b];
                proof {
                    assert(ea.calls[b as int] == call_view(*call));
                    assert forall|c: int| 0 <= c < call.captures@.len() implies #[trigger] call.captures@[c]@.offset + start <= usize::MAX by {
                        assert(eps[a as int].calls[b as int].captures[c] == call.captures@[c]@);
                    }
                }
                let caps = place_captures(&mut layouts, &call.captures, start);
                let compiled = CompiledValidationCall { builtin_kind: call.builtin_kind, captures: caps };
                let ghost ccv = compiled_call_view(compiled);
                let ghost before_calls = calls@;
                calls.push(compiled);
                proof {
                    let x = base + mine.take(b + 1);
                    assert(x.drop_last() =~= base + mine.take(b as int));
                    assert(x.last() == (call_view(*call), start as int));
                    assert(calls@.map_values(mc) =~= before_calls.map_values(mc).push(ccv));
                }
                b = b + 1;
            }
            proof {
                assert(mine.take(ea.calls.len() as int) =~= mine);
            }
            a = a + 1;
        }
        assert(eps.take(eps.len() as int) =~= eps);
        CompiledStateDecoderInfo { state_layouts: layouts, validation_calls: calls }
    }
}


/// A placed read agrees with its recorded read: the offset moved by
/// `start`, the observed field kept, and the layout found in `ls` at the
/// recorded index.
pub open spec fn capture_placed(cap: CaptureV, start: int, out: CompiledCaptureV, ls: Seq<LayoutV>) -> bool {
    &&& out.offset == cap.offset + start
    &&& out.field == cap.field
    &&& match cap.layout {
        None => out.layout_id is None,
        Some(l) => out.layout_id matches Some(id) && 0 <= id < ls.len() && ls[id] == l,
    }
}

proof fn lemma_intern_captures(ls: Seq<LayoutV>, caps: Seq<CaptureV>, start: int)
    requires
        ls.no_duplicates(),
    ensures
        ({
            let (ls2, out) = intern_captures(ls, caps, start);
            &&& ls2.no_duplicates()
            &&& ls.len() <= ls2.len()
            &&& ls2.take(ls.len() as int) == ls
            &&& out.len() == caps.len()
            &&& forall|c: int| 0 <= c < caps.len() ==> capture_placed(caps[c], start, #[trigger] out[c], ls2)
            &&& forall|j: int| #![trigger ls2[j]] ls.len() <= j < ls2.len() ==> exists|c: int| 0 <= c < caps.len() && #[trigger] caps[c].layout == Some(ls2[j])
        }),
    decreases caps.len(),
{
    if caps.len() > 0 {
        let c0 = caps.drop_last();
        lemma_intern_captures(ls, c0, start);
        let (ls1, out1) = intern_captures(ls, c0, start);
        let cap = caps.last();
        let (ls2, out) = intern_captures(ls, caps, start);
        match cap.layout {
            None => {
                assert forall|c: int| 0 <= c < caps.len() implies capture_placed(caps[c], start, #[trigger] out[c], ls2) by {
                    if c < caps.len() - 1 {
                        assert(caps[c] == c0[c]);
                        assert(out[c] == out1[c]);
                    }
                }
                assert forall|j: int| #![trigger ls2[j]] ls.len() <= j < ls2.len() implies exists|c: int| 0 <= c < caps.len() && #[trigger] caps[c].layout == Some(ls2[j]) by {
                    let c = choose|c: int| 0 <= c < c0.len() && #[trigger] c0[c].layout == Some(ls1[j]);
                    assert(caps[c] == c0[c]);
                }
            },
            Some(l) => {
                assert forall|c: int| 0 <= c < caps.len() implies capture_placed(caps[c], start, #[trigger] out[c], ls2) by {
                    if c < caps.len() - 1 {
                        assert(caps[c] == c0[c]);
                        assert(out[c] == out1[c]);
                        assert(capture_placed(c0[c], start, out1[c], ls1));
                        if let Some(id) = out1[c].layout_id {
                            if ls1.len() < ls2.len() {
                                assert(ls2[id] == ls1[id]);
                            }
                        }
                    } else {
                        if ls1.contains(l) {
                            let id = ls1.index_of(l);
                            assert(ls1[id] == l);
                        }
                    }
                }
                if !ls1.contains(l) {
                    assert forall|a: int, b: int| 0 <= a < ls2.len() && 0 <= b < ls2.len() && a != b implies ls2[a] != ls2[b] by {
                        if a < ls1.len() && b < ls1.len() {
                            assert(ls1[a] != ls1[b]);
                        } else if a < ls1.len() {
                            assert(ls2[b] == l);
                            assert(ls1.contains(ls1[a]));
                        } else {
                            assert(ls2[a] == l);
                            assert(ls1.contains(ls1[b]));
                        }
                    }
                    assert(ls2.take(ls.len() as int) =~= ls1.take(ls.len() as int));
                }
                assert forall|j: int| #![trigger ls2[j]] ls.len() <= j < ls2.len() implies exists|c: int| 0 <= c < caps.len() && #[trigger] caps[c].layout == Some(ls2[j]) by {
                    if j < ls1.len() {
                        let c = choose|c: int| 0 <= c < c0.len() && #[trigger] c0[c].layout == Some(ls1[j]);
                        assert(caps[c] == c0[c]);
                    } else {
                        assert(caps[caps.len() - 1].layout == Some(ls2[j]));
                    }
                }
            },
        }
    }
}

/// The metadata keeps every recorded call and read in order, places each
/// read at its offset plus where its entrypoint starts, stores each
/// distinct layout once, refers every encoded-state read to an equal stored
/// layout, and stores no layout that no read has.
pub proof fn lemma_decoder_info(eps: Seq<EntrypointV>)
    ensures
        ({
            let info = decoder_info(eps);
            let sc = staged_calls(eps);
            &&& info.layouts.no_duplicates()
            &&& info.calls.len() == sc.len()
            &&& forall|i: int| 0 <= i < sc.len() ==> (#[trigger] info.calls[i]).kind == sc[i].0.kind
                && info.calls[i].captures.len() == sc[i].0.captures.len()
                && forall|c: int| 0 <= c < sc[i].0.captures.len()
                    ==> capture_placed(sc[i].0.captures[c], sc[i].1, #[trigger] info.calls[i].captures[c], info.layouts)
            &&& forall|j: int| #![trigger info.layouts[j]] 0 <= j < info.layouts.len() ==> exists|i: int, c: int|
                0 <= i < sc.len() && 0 <= c < sc[i].0.captures.len() && #[trigger] sc[i].0.captures[c].layout == Some(info.layouts[j])
        }),
{
    lemma_intern_calls(staged_calls(eps));
}

proof fn lemma_intern_calls(sc: Seq<(CallV, int)>)
    ensures
        ({
            let (ls, calls) = intern_calls(sc);
            &&& ls.no_duplicates()
            &&& calls.len() == sc.len()
            &&& forall|i: int| 0 <= i < sc.len() ==> (#[trigger] calls[i]).kind == sc[i].0.kind
                && calls[i].captures.len() == sc[i].0.captures.len()
                && forall|c: int| 0 <= c < sc[i].0.captures.len()
                    ==> capture_placed(sc[i].0.captures[c], sc[i].1, #[trigger] calls[i].captures[c], ls)
            &&& forall|j: int| #![trigger ls[j]] 0 <= j < ls.len() ==> exists|i: int, c: int|
                0 <= i < sc.len() && 0 <= c < sc[i].0.captures.len() && #[trigger] sc[i].0.captures[c].layout == Some(ls[j])
        }),
    decreases sc.len(),
{
    if sc.len() > 0 {
        let s0 = sc.drop_last();
        lemma_intern_calls(s0);
        let (ls, out) = intern_calls(s0);
        let (c, start) = sc.last();
        lemma_intern_captures(ls, c.captures, start);
        let (ls2, caps) = intern_captures(ls, c.captures, start);
        let (lsf, calls) = intern_calls(sc);
        assert(lsf == ls2);
        assert forall|i: int| 0 <= i < sc.len() implies (#[trigger] calls[i]).kind == sc[i].0.kind
            && calls[i].captures.len() == sc[i].0.captures.len()
            && forall|q: int| 0 <= q < sc[i].0.captures.len()
                ==> capture_placed(sc[i].0.captures[q], sc[i].1, #[trigger] calls[i].captures[q], ls2) by {
            if i < sc.len() - 1 {
                assert(sc[i] == s0[i]);
                assert(calls[i] == out[i]);
                assert forall|q: int| 0 <= q < sc[i].0.captures.len()
                    implies capture_placed(sc[i].0.captures[q], sc[i].1, #[trigger] calls[i].captures[q], ls2) by {
                    assert(capture_placed(s0[i].0.captures[q], s0[i].1, out[i].captures[q], ls));
                    if let Some(id) = out[i].captures[q].layout_id {
                        assert(ls2.take(ls.len() as int)[id] == ls2[id]);
                    }
                }
            }
        }
        assert forall|j: int| #![trigger ls2[j]] 0 <= j < ls2.len() implies exists|i: int, q: int|
            0 <= i < sc.len() && 0 <= q < sc[i].0.captures.len() && #[trigger] sc[i].0.captures[q].layout == Some(ls2[j]) by {
            if j < ls.len() {
                let (i, q) = choose|i: int, q: int| 0 <= i < s0.len() && 0 <= q < s0[i].0.captures.len() && #[trigger] s0[i].0.captures[q].layout == Some(ls[j]);
                assert(sc[i] == s0[i]);
                assert(ls2.take(ls.len() as int)[j] == ls2[j]);
            } else {
                let q = choose|q: int| 0 <= q < c.captures.len() && #[trigger] c.captures[q].layout == Some(ls2[j]);
                assert(sc[sc.len() - 1].0.captures[q].layout == Some(ls2[j]));
            }
        }
    }
}


/// The layouts of all reads of the calls, in order: `None` for a read of
/// something other than an encoded state.
pub open spec fn read_layouts(sc: Seq<(CallV, int)>) -> Seq<Option<LayoutV>>
    decreases sc.len(),
{
    if sc.len() == 0 {
        Seq::empty()
    } else {
        read_layouts(sc.drop_last()) + sc.last().0.captures.map_values(|c: CaptureV| c.layout)
    }
}

/// The distinct layouts of the reads, in the order of their first use.
pub open spec fn first_uses(rs: Seq<Option<LayoutV>>) -> Seq<LayoutV>
    decreases rs.len(),
{
    if rs.len() == 0 {
        Seq::empty()
    } else {
        let ls = first_uses(rs.drop_last());
        match rs.last() {
            Some(l) => if ls.contains(l) {
                ls
            } else {
                ls.push(l)
            },
            None => ls,
        }
    }
}

proof fn lemma_intern_captures_first_uses(prev: Seq<Option<LayoutV>>, caps: Seq<CaptureV>, start: int)
    ensures
        intern_captures(first_uses(prev), caps, start).0 == first_uses(prev + caps.map_values(|c: CaptureV| c.layout)),
    decreases caps.len(),
{
    let lay = |c: CaptureV| c.layout;
    if caps.len() == 0 {
        assert(prev + caps.map_values(lay) =~= prev);
    } else {
        let c0 = caps.drop_last();
        lemma_intern_captures_first_uses(prev, c0, start);
        let all = prev + caps.map_values(lay);
        assert(all.drop_last() =~= prev + c0.map_values(lay));
        assert(all.last() == caps.last().layout);
    }
}

proof fn lemma_intern_calls_first_uses(sc: Seq<(CallV, int)>)
    ensures
        intern_calls(sc).0 == first_uses(read_layouts(sc)),
    decreases sc.len(),
{
    if sc.len() > 0 {
        let s0 = sc.drop_last();
        lemma_intern_calls_first_uses(s0);
        let (c, start) = sc.last();
        lemma_intern_captures_first_uses(read_layouts(s0), c.captures, start);
    }
}

/// The layouts first used are in first-use order: each is used by some
/// read, none twice, every used layout is there, and an earlier one is used
/// before the first use of a later one.
proof fn lemma_first_uses_order(rs: Seq<Option<LayoutV>>)
    ensures
        first_uses(rs).no_duplicates(),
        forall|p: int| 0 <= p < rs.len() && (#[trigger] rs[p]) is Some ==> first_uses(rs).contains(rs[p].unwrap()),
        forall|j: int| #![trigger first_uses(rs)[j]] 0 <= j < first_uses(rs).len() ==> exists|p: int| 0 <= p < rs.len() && #[trigger] rs[p] == Some(
            first_uses(rs)[j],
        ),
        forall|i: int, j: int| 0 <= i < j < first_uses(rs).len() ==> exists|p: int| 0 <= p < rs.len() && rs[p] == Some(
            #[trigger] first_uses(rs)[i],
        ) && forall|q: int| 0 <= q <= p ==> rs[q] != Some(#[trigger] first_uses(rs)[j]),
    decreases rs.len(),
{
    if rs.len() > 0 {
        let r0 = rs.drop_last();
        lemma_first_uses_order(r0);
        let ls0 = first_uses(r0);
        let ls = first_uses(rs);
        assert forall|p: int| 0 <= p < rs.len() && (#[trigger] rs[p]) is Some implies ls.contains(rs[p].unwrap()) by {
            if p < r0.len() {
                assert(rs[p] == r0[p]);
                assert(ls0.contains(r0[p].unwrap()));
                let k = choose|k: int| 0 <= k < ls0.len() && ls0[k] == r0[p].unwrap();
                assert(ls[k] == ls0[k]);
            } else {
                if !ls0.contains(rs[p].unwrap()) {
                    assert(ls[ls.len() - 1] == rs[p].unwrap());
                }
            }
        }
        assert forall|j: int| #![trigger ls[j]] 0 <= j < ls.len() implies exists|p: int| 0 <= p < rs.len() && #[trigger] rs[p] == Some(ls[j]) by {
            if j < ls0.len() {
                let p = choose|p: int| 0 <= p < r0.len() && #[trigger] r0[p] == Some(ls0[j]);
                assert(rs[p] == r0[p]);
            } else {
                assert(rs[rs.len() - 1] == Some(ls[j]));
            }
        }
        assert forall|i: int, j: int| 0 <= i < j < ls.len() implies exists|p: int| 0 <= p < rs.len() && rs[p] == Some(
            #[trigger] ls[i],
        ) && forall|q: int| 0 <= q <= p ==> rs[q] != Some(#[trigger] ls[j]) by {
            if j < ls0.len() {
                let p = choose|p: int| 0 <= p < r0.len() && r0[p] == Some(ls0[i]) && forall|q: int|
                    0 <= q <= p ==> r0[q] != Some(#[trigger] ls0[j]);
                assert(rs[p] == r0[p]);
                assert forall|q: int| 0 <= q <= p implies rs[q] != Some(#[trigger] ls[j]) by {
                    assert(rs[q] == r0[q]);
                    assert(r0[q] != Some(ls0[j]));
                }
            } else {
                let l = ls[j];
                assert(!ls0.contains(l));
                let p = choose|p: int| 0 <= p < r0.len() && #[trigger] r0[p] == Some(ls0[i]);
                assert(rs[p] == r0[p]);
                assert forall|q: int| 0 <= q <= p implies rs[q] != Some(#[trigger] ls[j]) by {
                    assert(rs[q] == r0[q]);
                    if r0[q] == Some(l) {
                        assert(ls0.contains(r0[q].unwrap()));
                    }
                }
            }
        }
        if rs.last() is Some && !ls0.contains(rs.last().unwrap()) {
            assert forall|a: int, b: int| 0 <= a < b < ls.len() implies ls[a] != ls[b] by {
                if b < ls0.len() {
                    assert(ls0[a] != ls0[b]);
                } else {
                    assert(ls0.contains(ls0[a]));
                }
            }
        }
    }
}

/// The stored layouts are the distinct layouts of the reads, in the order
/// in which the reads, entrypoint by entrypoint and call by call, first use
/// them: an earlier stored layout is used before a later one is first used.
pub proof fn lemma_decoder_layouts_first_use_order(eps: Seq<EntrypointV>)
    ensures
        ({
            let ls = decoder_info(eps).layouts;
            let rs = read_layouts(staged_calls(eps));
            &&& ls == first_uses(rs)
            &&& forall|i: int, j: int| 0 <= i < j < ls.len() ==> exists|p: int| 0 <= p < rs.len() && rs[p] == Some(
                #[trigger] ls[i],
            ) && forall|q: int| 0 <= q <= p ==> rs[q] != Some(#[trigger] ls[j])
        }),
{
    lemma_intern_calls_first_uses(staged_calls(eps));
    lemma_first_uses_order(read_layouts(staged_calls(eps)));
}


/// How many calls the first `e` entrypoints recorded.
pub open spec fn calls_before(eps: Seq<EntrypointV>, e: int) -> int
    decreases e,
{
    if e <= 0 {
        0
    } else {
        calls_before(eps, e - 1) + eps[e - 1].calls.len()
    }
}

proof fn lemma_calls_before_prefix(eps: Seq<EntrypointV>, k: int, e: int)
    requires
        0 <= e <= k <= eps.len(),
    ensures
        calls_before(eps.take(k), e) == calls_before(eps, e),
    decreases e,
{
    if e > 0 {
        lemma_calls_before_prefix(eps, k, e - 1);
        assert(eps.take(k)[e - 1] == eps[e - 1]);
    }
}

proof fn lemma_calls_before_nonneg(eps: Seq<EntrypointV>, a: int)
    requires
        0 <= a <= eps.len(),
    ensures
        calls_before(eps, a) >= 0,
    decreases a,
{
    if a > 0 {
        lemma_calls_before_nonneg(eps, a - 1);
    }
}

proof fn lemma_calls_before_mono(eps: Seq<EntrypointV>, a: int, b: int)
    requires
        0 <= a < b <= eps.len(),
    ensures
        calls_before(eps, a) + eps[a].calls.len() <= calls_before(eps, b),
        calls_before(eps, a) >= 0,
    decreases b,
{
    lemma_calls_before_nonneg(eps, a);
    if b > a + 1 {
        lemma_calls_before_mono(eps, a, b - 1);
    }
}

/// The staged calls list entrypoint `e`'s call `j` at `calls_before(e) + j`.
proof fn lemma_staged_calls_index(eps: Seq<EntrypointV>)
    ensures
        staged_calls(eps).len() == calls_before(eps, eps.len() as int),
        forall|e: int, j: int| 0 <= e < eps.len() && 0 <= j < eps[e].calls.len() ==> #[trigger] staged_calls(eps)[calls_before(
            eps,
            e,
        ) + j] == (eps[e].calls[j], start_of(eps[e])),
    decreases eps.len(),
{
    if eps.len() > 0 {
        let p = eps.drop_last();
        let n = eps.len() - 1;
        lemma_staged_calls_index(p);
        lemma_calls_before_prefix(eps, n, n);
        let sp = staged_calls(p);
        let mine = eps.last().calls.map_values(|c: CallV| (c, start_of(eps.last())));
        assert(staged_calls(eps) == sp + mine);
        assert forall|e: int, j: int| 0 <= e < eps.len() && 0 <= j < eps[e].calls.len() implies #[trigger] staged_calls(eps)[calls_before(
            eps,
            e,
        ) + j] == (eps[e].calls[j], start_of(eps[e])) by {
            if e < n {
                lemma_calls_before_prefix(eps, n, e);
                assert(p[e] == eps[e]);
                lemma_calls_before_mono(p, e, n);
                assert(sp[calls_before(p, e) + j] == (p[e].calls[j], start_of(p[e])));
            } else {
                assert(e == n);
                assert(eps[e] == eps.last());
                assert(mine[j] == (eps[e].calls[j], start_of(eps[e])));
            }
        }
    }
}

/// `into_info` keeps every recorded call, entrypoint by entrypoint in the
/// order they were begun and call by call in the order they were recorded:
/// there are as many calls as were recorded in all entrypoints together,
/// and call `j` of entrypoint `e` sits right after the calls of the
/// entrypoints before it, with its kind, and with each of its reads at the
/// read's offset plus where that entrypoint starts and with its layout.
pub proof fn lemma_decoder_keeps_every_call(eps: Seq<EntrypointV>)
    ensures
        ({
            let info = decoder_info(eps);
            &&& info.calls.len() == calls_before(eps, eps.len() as int)
            &&& forall|e: int, j: int| 0 <= e < eps.len() && 0 <= j < eps[e].calls.len() ==> {
                let out = #[trigger] info.calls[calls_before(eps, e) + j];
                let call = eps[e].calls[j];
                &&& 0 <= calls_before(eps, e) + j < info.calls.len()
                &&& out.kind == call.kind
                &&& out.captures.len() == call.captures.len()
                &&& forall|c: int| 0 <= c < call.captures.len() ==> capture_placed(
                    call.captures[c],
                    start_of(eps[e]),
                    #[trigger] out.captures[c],
                    info.layouts,
                )
            }
        }),
{
    lemma_decoder_info(eps);
    lemma_staged_calls_index(eps);
    let info = decoder_info(eps);
    let sc = staged_calls(eps);
    assert forall|e: int, j: int| 0 <= e < eps.len() && 0 <= j < eps[e].calls.len() implies {
        let out = #[trigger] info.calls[calls_before(eps, e) + j];
        let call = eps[e].calls[j];
        &&& 0 <= calls_before(eps, e) + j < info.calls.len()
        &&& out.kind == call.kind
        &&& out.captures.len() == call.captures.len()
        &&& forall|c: int| 0 <= c < call.captures.len() ==> capture_placed(
            call.captures[c],
            start_of(eps[e]),
            #[trigger] out.captures[c],
            info.layouts,
        )
    } by {
        let i = calls_before(eps, e) + j;
        lemma_calls_before_mono(eps, e, eps.len() as int);
        assert(sc[i] == (eps[e].calls[j], start_of(eps[e])));
        assert(info.calls[i].kind == sc[i].0.kind);
    }
}

} // verus!
