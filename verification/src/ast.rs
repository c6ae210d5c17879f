//! The parts of the SilverScript syntax tree that the compiler core reads,
//! and their mathematical views.
use vstd::prelude::*;

verus! {

/// A source range.
#[derive(Clone, Copy, Debug, PartialEq, Eq, Structural)]
pub struct Span {
    pub start: usize,
    pub end: usize,
}

impl Span {
    /// The empty range at the start of the source.
    pub fn empty() -> (r: Span)
        ensures
            r.start == 0 && r.end == 0,
    {
        Span { start: 0, end: 0 }
    }
}

/// One array dimension of a type: `[]`, `[N]` or `[NAME]` for a constant.
#[derive(Debug)]
pub enum ArrayDim {
    Dynamic,
    Fixed(usize),
    Constant(String),
}

/// The base of a type.
#[derive(Debug)]
pub enum TypeBase {
    Int,
    Bool,
    Byte,
    String,
    Pubkey,
    Sig,
    Datasig,
    Custom(String),
    Tuple(Vec<TypeRef>),
}

/// A type: a base with array dimensions, outermost last.
#[derive(Debug)]
pub struct TypeRef {
    pub base: TypeBase,
    pub array_dims: Vec<ArrayDim>,
}

/// View of an array dimension.
pub enum ArrayDimV {
    Dynamic,
    Fixed(nat),
    Constant(Seq<char>),
}

/// View of a type base.
pub enum TypeBaseV {
    Int,
    Bool,
    Byte,
    String,
    Pubkey,
    Sig,
    Datasig,
    Custom(Seq<char>),
    Tuple(Seq<TypeRefV>),
}

/// View of a type.
pub struct TypeRefV {
    pub base: TypeBaseV,
    pub array_dims: Seq<ArrayDimV>,
}

pub open spec fn dim_view(d: ArrayDim) -> ArrayDimV {
    match d {
        ArrayDim::Dynamic => ArrayDimV::Dynamic,
        ArrayDim::Fixed(n) => ArrayDimV::Fixed(n as nat),
        ArrayDim::Constant(s) => ArrayDimV::Constant(s@),
    }
}

pub open spec fn dims_view(s: Seq<ArrayDim>) -> Seq<ArrayDimV> {
    s.map_values(|d: ArrayDim| dim_view(d))
}

pub open spec fn type_view(t: TypeRef) -> TypeRefV
    decreases t,
{
    TypeRefV {
        base: match t.base {
            TypeBase::Int => TypeBaseV::Int,
            TypeBase::Bool => TypeBaseV::Bool,
            TypeBase::Byte => TypeBaseV::Byte,
            TypeBase::String => TypeBaseV::String,
            TypeBase::Pubkey => TypeBaseV::Pubkey,
            TypeBase::Sig => TypeBaseV::Sig,
            TypeBase::Datasig => TypeBaseV::Datasig,
            TypeBase::Custom(n) => TypeBaseV::Custom(n@),
            TypeBase::Tuple(ts) => TypeBaseV::Tuple(types_view(ts@)),
        },
        array_dims: dims_view(t.array_dims@),
    }
}

pub open spec fn types_view(s: Seq<TypeRef>) -> Seq<TypeRefV>
    decreases s,
{
    if s.len() == 0 {
        Seq::empty()
    } else {
        types_view(s.drop_last()).push(type_view(s.last()))
    }
}

impl View for TypeRef {
    type V = TypeRefV;

    open spec fn view(&self) -> TypeRefV {
        type_view(*self)
    }
}


/// The decimal digits of `n`.
pub open spec fn decimal(n: nat) -> Seq<char>
    decreases n,
{
    if n < 10 {
        seq![(('0' as u8) + n) as char]
    } else {
        decimal(n / 10).push((('0' as u8) + (n % 10)) as char)
    }
}

/// The one digit `d`.
fn digit_text(d: usize) -> (r: String)
    requires
        d < 10,
    ensures
        r@ == seq![(('0' as u8) + d) as char],
{
    match d {
        0 => {
            proof {
                reveal_strlit("0");
            }
            String::from_str("0")
        },
        1 => {
            proof {
                reveal_strlit("1");
            }
            String::from_str("1")
        },
        2 => {
            proof {
                reveal_strlit("2");
            }
            String::from_str("2")
        },
        3 => {
            proof {
                reveal_strlit("3");
            }
            String::from_str("3")
        },
        4 => {
            proof {
                reveal_strlit("4");
            }
            String::from_str("4")
        },
        5 => {
            proof {
                reveal_strlit("5");
            }
            String::from_str("5")
        },
        6 => {
            proof {
                reveal_strlit("6");
            }
            String::from_str("6")
        },
        7 => {
            proof {
                reveal_strlit("7");
            }
            String::from_str("7")
        },
        8 => {
            proof {
                reveal_strlit("8");
            }
            String::from_str("8")
        },
        _ => {
            proof {
                reveal_strlit("9");
            }
            String::from_str("9")
        },
    }
}

/// The decimal digits of `n`.
pub(crate) fn usize_decimal(n: usize) -> (r: String)
    ensures
        r@ == decimal(n as nat),
    decreases n,
{
    if n < 10 {
        digit_text(n)
    } else {
        let mut r = usize_decimal(n / 10);
        let d = digit_text(n % 10);
        r.append(d.as_str());
        r
    }
}

/// The text of a type base.
pub open spec fn base_name(b: TypeBaseV) -> Seq<char>
    decreases b,
{
    match b {
        TypeBaseV::Int => "int"@,
        TypeBaseV::Bool => "bool"@,
        TypeBaseV::Byte => "byte"@,
        TypeBaseV::String => "string"@,
        TypeBaseV::Pubkey => "pubkey"@,
        TypeBaseV::Sig => "sig"@,
        TypeBaseV::Datasig => "datasig"@,
        TypeBaseV::Custom(n) => n,
        TypeBaseV::Tuple(ts) => "("@ + type_names_joined(ts) + ")"@,
    }
}

/// The texts of types joined by `", "`.
pub open spec fn type_names_joined(ts: Seq<TypeRefV>) -> Seq<char>
    decreases ts,
{
    if ts.len() == 0 {
        Seq::empty()
    } else if ts.len() == 1 {
        type_name_of(ts[0])
    } else {
        type_names_joined(ts.drop_last()) + ", "@ + type_name_of(ts.last())
    }
}

/// The text of an array dimension.
pub open spec fn dim_name(d: ArrayDimV) -> Seq<char> {
    match d {
        ArrayDimV::Dynamic => "[]"@,
        ArrayDimV::Fixed(n) => "["@ + decimal(n) + "]"@,
        ArrayDimV::Constant(c) => "["@ + c + "]"@,
    }
}

/// The text of the dimensions, in order.
pub open spec fn dims_name(ds: Seq<ArrayDimV>) -> Seq<char>
    decreases ds.len(),
{
    if ds.len() == 0 {
        Seq::empty()
    } else {
        dims_name(ds.drop_last()) + dim_name(ds.last())
    }
}

/// The text of a type, as the compiler prints it: the base, then each
/// dimension.
pub open spec fn type_name_of(t: TypeRefV) -> Seq<char>
    decreases t,
{
    base_name(t.base) + dims_name(t.array_dims)
}

/// A copy of an array dimension.
pub fn clone_dim(d: &ArrayDim) -> (r: ArrayDim)
    ensures
        dim_view(r) == dim_view(*d),
{
    match d {
        ArrayDim::Dynamic => ArrayDim::Dynamic,
        ArrayDim::Fixed(n) => ArrayDim::Fixed(*n),
        ArrayDim::Constant(c) => ArrayDim::Constant(c.clone()),
    }
}

/// A copy of a type.
pub fn clone_type(t: &TypeRef) -> (r: TypeRef)
    ensures
        r@ == t@,
    decreases t,
{
    let base = match &t.base {
        TypeBase::Int => TypeBase::Int,
        TypeBase::Bool => TypeBase::Bool,
        TypeBase::Byte => TypeBase::Byte,
        TypeBase::String => TypeBase::String,
        TypeBase::Pubkey => TypeBase::Pubkey,
        TypeBase::Sig => TypeBase::Sig,
        TypeBase::Datasig => TypeBase::Datasig,
        TypeBase::Custom(n) => TypeBase::Custom(n.clone()),
        TypeBase::Tuple(ts) => TypeBase::Tuple(clone_types(ts)),
    };
    let mut dims: Vec<ArrayDim> = Vec::new();
    let mut i: usize = 0;
    while i < t.array_dims.len()
        invariant
            i <= t.array_dims@.len(),
            dims_view(dims@) == dims_view(t.array_dims@.take(i as int)),
        decreases t.array_dims@.len() - i,
    {
        let c = clone_dim(&t.array_dims[i]);
        let ghost before = dims@;
        dims.push(c);
        assert(dims_view(dims@) =~= dims_view(before).push(dim_view(t.array_dims@[i as int])));
        assert(dims_view(dims@) =~= dims_view(t.array_dims@.take(i + 1)));
        i = i + 1;
    }
    assert(t.array_dims@.take(t.array_dims@.len() as int) =~= t.array_dims@);
    TypeRef { base, array_dims: dims }
}

/// A copy of a list of types.
pub fn clone_types(ts: &Vec<TypeRef>) -> (r: Vec<TypeRef>)
    ensures
        types_view(r@) == types_view(ts@),
    decreases ts,
{
    let mut r: Vec<TypeRef> = Vec::new();
    let mut i: usize = 0;
    while i < ts.len()
        invariant
            i <= ts@.len(),
            types_view(r@) == types_view(ts@.take(i as int)),
        decreases ts@.len() - i,
    {
        let c = clone_type(&ts[i]);
        let ghost before = r@;
        r.push(c);
        assert(r@.drop_last() =~= before);
        assert(ts@.take(i + 1).drop_last() =~= ts@.take(i as int));
        i = i + 1;
    }
    assert(ts@.take(ts@.len() as int) =~= ts@);
    r
}


/// Whether two array dimensions are the same.
pub fn dims_same(a: &ArrayDim, b: &ArrayDim) -> (r: bool)
    ensures
        r == (dim_view(*a) == dim_view(*b)),
{
    match (a, b) {
        (ArrayDim::Dynamic, ArrayDim::Dynamic) => true,
        (ArrayDim::Fixed(x), ArrayDim::Fixed(y)) => *x == *y,
        (ArrayDim::Constant(x), ArrayDim::Constant(y)) => *x == *y,
        _ => false,
    }
}

/// Whether two types are the same.
pub fn types_same(a: &TypeRef, b: &TypeRef) -> (r: bool)
    ensures
        r == (a@ == b@),
    decreases a,
{
    let bases_same = match (&a.base, &b.base) {
        (TypeBase::Int, TypeBase::Int) => true,
        (TypeBase::Bool, TypeBase::Bool) => true,
        (TypeBase::Byte, TypeBase::Byte) => true,
        (TypeBase::String, TypeBase::String) => true,
        (TypeBase::Pubkey, TypeBase::Pubkey) => true,
        (TypeBase::Sig, TypeBase::Sig) => true,
        (TypeBase::Datasig, TypeBase::Datasig) => true,
        (TypeBase::Custom(x), TypeBase::Custom(y)) => *x == *y,
        (TypeBase::Tuple(xs), TypeBase::Tuple(ys)) => type_lists_same(xs, ys),
        _ => false,
    };
    if !bases_same {
        assert(a@.base != b@.base);
        return false;
    }
    if a.array_dims.len() != b.array_dims.len() {
        assert(a@.array_dims.len() != b@.array_dims.len());
        return false;
    }
    let mut i: usize = 0;
    while i < a.array_dims.len()
        invariant
            i <= a.array_dims@.len(),
            a.array_dims@.len() == b.array_dims@.len(),
            forall|j: int| 0 <= j < i ==> dim_view(a.array_dims@[j]) == dim_view(b.array_dims@[j]),
        decreases a.array_dims@.len() - i,
    {
        if !dims_same(&a.array_dims[i], &b.array_dims[i]) {
            assert(a@.array_dims[i as int] != b@.array_dims[i as int]);
            return false;
        }
        i = i + 1;
    }
    assert(a@.array_dims =~= b@.array_dims);
    true
}

/// Whether two types have the same base.
pub fn bases_same(a: &TypeRef, b: &TypeRef) -> (r: bool)
    ensures
        r == (a@.base == b@.base),
{
    match (&a.base, &b.base) {
        (TypeBase::Int, TypeBase::Int) => true,
        (TypeBase::Bool, TypeBase::Bool) => true,
        (TypeBase::Byte, TypeBase::Byte) => true,
        (TypeBase::String, TypeBase::String) => true,
        (TypeBase::Pubkey, TypeBase::Pubkey) => true,
        (TypeBase::Sig, TypeBase::Sig) => true,
        (TypeBase::Datasig, TypeBase::Datasig) => true,
        (TypeBase::Custom(x), TypeBase::Custom(y)) => *x == *y,
        (TypeBase::Tuple(xs), TypeBase::Tuple(ys)) => type_lists_same(xs, ys),
        _ => false,
    }
}

/// Whether two lists of types are the same.
pub fn type_lists_same(a: &Vec<TypeRef>, b: &Vec<TypeRef>) -> (r: bool)
    ensures
        r == (types_view(a@) == types_view(b@)),
    decreases a,
{
    proof {
        lemma_types_view(a@);
        lemma_types_view(b@);
    }
    if a.len() != b.len() {
        assert(types_view(a@).len() != types_view(b@).len());
        return false;
    }
    let mut i: usize = 0;
    while i < a.len()
        invariant
            i <= a@.len(),
            a@.len() == b@.len(),
            types_view(a@).len() == a@.len(),
            types_view(b@).len() == b@.len(),
            forall|j: int| 0 <= j < a@.len() ==> types_view(a@)[j] == type_view(a@[j]),
            forall|j: int| 0 <= j < b@.len() ==> types_view(b@)[j] == type_view(b@[j]),
            forall|j: int| 0 <= j < i ==> type_view(a@[j]) == type_view(b@[j]),
        decreases a@.len() - i,
    {
        if !types_same(&a[i], &b[i]) {
            assert(types_view(a@)[i as int] != types_view(b@)[i as int]);
            return false;
        }
        i = i + 1;
    }
    assert(types_view(a@) =~= types_view(b@));
    true
}

/// The view of a list of types is the list of their views.
pub proof fn lemma_types_view(s: Seq<TypeRef>)
    ensures
        types_view(s).len() == s.len(),
        forall|j: int| 0 <= j < s.len() ==> types_view(s)[j] == type_view(s[j]),
    decreases s.len(),
{
    if s.len() > 0 {
        lemma_types_view(s.drop_last());
        assert forall|j: int| 0 <= j < s.len() implies types_view(s)[j] == type_view(s[j]) by {
            if j < s.len() - 1 {
                assert(s.drop_last()[j] == s[j]);
            }
        }
    }
}

impl TypeRef {
    /// The text of the type: the base, then each dimension.
    pub fn type_text(&self) -> (r: String)
        ensures
            r@ == type_name_of(self@),
        decreases self,
    {
        let mut r = match &self.base {
            TypeBase::Int => String::from_str("int"),
            TypeBase::Bool => String::from_str("bool"),
            TypeBase::Byte => String::from_str("byte"),
            TypeBase::String => String::from_str("string"),
            TypeBase::Pubkey => String::from_str("pubkey"),
            TypeBase::Sig => String::from_str("sig"),
            TypeBase::Datasig => String::from_str("datasig"),
            TypeBase::Custom(n) => n.clone(),
            TypeBase::Tuple(ts) => {
                let mut t = String::from_str("(");
                let joined = join_type_names(ts);
                t.append(joined.as_str());
                t.append(")");
                t
            },
        };
        assert(r@ == base_name(self@.base));
        let mut i: usize = 0;
        while i < self.array_dims.len()
            invariant
                i <= self.array_dims@.len(),
                r@ == base_name(self@.base) + dims_name(self@.array_dims.take(i as int)),
            decreases self.array_dims@.len() - i,
        {
            let ghost before = r@;
            match &self.array_dims[i] {
                ArrayDim::Dynamic => {
                    r.append("[]");
                },
                ArrayDim::Fixed(n) => {
                    r.append("[");
                    let digits = usize_decimal(*n);
                    r.append(digits.as_str());
                    r.append("]");
                },
                ArrayDim::Constant(c) => {
                    r.append("[");
                    r.append(c.as_str());
                    r.append("]");
                },
            }
            proof {
                let ds = self@.array_dims.take(i + 1);
                assert(ds.drop_last() =~= self@.array_dims.take(i as int));
                assert(ds.last() == dim_view(self.array_dims@[i as int]));
                assert(r@ =~= base_name(self@.base) + dims_name(ds));
            }
            i = i + 1;
        }
        assert(self@.array_dims.take(self@.array_dims.len() as int) =~= self@.array_dims);
        r
    }
}

/// The texts of the types joined by `", "`.
fn join_type_names(ts: &Vec<TypeRef>) -> (r: String)
    ensures
        r@ == type_names_joined(types_view(ts@)),
    decreases ts,
{
    proof {
        lemma_types_view(ts@);
    }
    let mut r = String::new();
    assert(types_view(ts@).take(0) =~= Seq::<TypeRefV>::empty());
    let mut i: usize = 0;
    while i < ts.len()
        invariant
            i <= ts@.len(),
            types_view(ts@).len() == ts@.len(),
            forall|j: int| 0 <= j < ts@.len() ==> types_view(ts@)[j] == type_view(ts@[j]),
            r@ == type_names_joined(types_view(ts@).take(i as int)),
        decreases ts@.len() - i,
    {
        if i > 0 {
            r.append(", ");
        }
        let name = ts[i].type_text();
        r.append(name.as_str());
        proof {
            let v = types_view(ts@).take(i + 1);
            assert(v.drop_last() =~= types_view(ts@).take(i as int));
            assert(v.last() == type_view(ts@[i as int]));
            if i == 0 {
                assert(v.len() == 1);
                assert(r@ =~= type_name_of(v[0]));
            } else {
                assert(r@ =~= type_names_joined(v.drop_last()) + ", "@ + type_name_of(v.last()));
            }
        }
        i = i + 1;
    }
    assert(types_view(ts@).take(ts@.len() as int) =~= types_view(ts@));
    r
}


/// Binary operators.
#[derive(Clone, Copy, Debug, PartialEq, Eq, Structural)]
pub enum BinaryOp {
    Add,
    Sub,
    Mul,
    Div,
    Mod,
    And,
    Or,
    Eq,
    Ne,
    Lt,
    Le,
    Gt,
    Ge,
}

/// Unary operators.
#[derive(Clone, Copy, Debug, PartialEq, Eq, Structural)]
pub enum UnaryOp {
    Not,
    Neg,
}

/// Which half of a `split` an expression takes.
#[derive(Clone, Copy, Debug, PartialEq, Eq, Structural)]
pub enum SplitPart {
    Left,
    Right,
}

/// Transaction fields that introspection reads.
#[derive(Clone, Copy, Debug, PartialEq, Eq, Structural)]
pub enum IntrospectionKind {
    InputValue,
    InputScriptPubKey,
    OutputValue,
    OutputScriptPubKey,
}

/// Operators without operands.
#[derive(Clone, Copy, Debug, PartialEq, Eq, Structural)]
pub enum NullaryOp {
    ThisScriptSize,
    ActiveInputIndex,
    TxInputsLength,
    TxOutputsLength,
}

/// Postfix operators.
#[derive(Clone, Copy, Debug, PartialEq, Eq, Structural)]
pub enum UnarySuffixKind {
    Length,
}

/// Time checks.
#[derive(Clone, Copy, Debug, PartialEq, Eq, Structural)]
pub enum TimeVar {
    ThisAge,
    TxTime,
}

/// An expression with its source range.
#[derive(Debug)]
pub struct Expr {
    pub kind: ExprKind,
    pub span: Span,
}

/// A named field value in a struct literal.
#[derive(Debug)]
pub struct StateFieldExpr {
    pub name: String,
    pub expr: Expr,
    pub span: Span,
}

/// The kinds of expression.
#[derive(Debug)]
#[allow(inconsistent_fields)]
pub enum ExprKind {
    Int(i64),
    Bool(bool),
    Byte(u8),
    String(String),
    Identifier(String),
    Nullary(NullaryOp),
    Array(Vec<Expr>),
    Call { name: String, args: Vec<Expr> },
    New { name: String, args: Vec<Expr> },
    Split { source: Box<Expr>, index: Box<Expr>, part: SplitPart },
    Slice { source: Box<Expr>, start: Box<Expr>, end: Box<Expr> },
    Append { source: Box<Expr>, args: Vec<Expr> },
    ArrayIndex { source: Box<Expr>, index: Box<Expr> },
    Unary { op: UnaryOp, expr: Box<Expr> },
    Binary { op: BinaryOp, left: Box<Expr>, right: Box<Expr> },
    IfElse { condition: Box<Expr>, then_expr: Box<Expr>, else_expr: Box<Expr> },
    Introspection { kind: IntrospectionKind, index: Box<Expr> },
    StructLiteral(Vec<StateFieldExpr>),
    FieldAccess { source: Box<Expr>, field: String },
    UnarySuffix { source: Box<Expr>, kind: UnarySuffixKind },
}

/// View of an expression.
pub struct ExprV {
    pub kind: ExprKindV,
    pub span: Span,
}

/// View of a struct-literal field.
pub struct StateFieldV {
    pub name: Seq<char>,
    pub expr: ExprV,
    pub span: Span,
}

/// View of an expression kind.
#[allow(inconsistent_fields)]
pub enum ExprKindV {
    Int(i64),
    Bool(bool),
    Byte(u8),
    String(Seq<char>),
    Identifier(Seq<char>),
    Nullary(NullaryOp),
    Array(Seq<ExprV>),
    Call { name: Seq<char>, args: Seq<ExprV> },
    New { name: Seq<char>, args: Seq<ExprV> },
    Split { source: Box<ExprV>, index: Box<ExprV>, part: SplitPart },
    Slice { source: Box<ExprV>, start: Box<ExprV>, end: Box<ExprV> },
    Append { source: Box<ExprV>, args: Seq<ExprV> },
    ArrayIndex { source: Box<ExprV>, index: Box<ExprV> },
    Unary { op: UnaryOp, expr: Box<ExprV> },
    Binary { op: BinaryOp, left: Box<ExprV>, right: Box<ExprV> },
    IfElse { condition: Box<ExprV>, then_expr: Box<ExprV>, else_expr: Box<ExprV> },
    Introspection { kind: IntrospectionKind, index: Box<ExprV> },
    StructLiteral(Seq<StateFieldV>),
    FieldAccess { source: Box<ExprV>, field: Seq<char> },
    UnarySuffix { source: Box<ExprV>, kind: UnarySuffixKind },
}

pub open spec fn expr_view(e: Expr) -> ExprV
    decreases e,
{
    ExprV {
        kind: match e.kind {
            ExprKind::Int(v) => ExprKindV::Int(v),
            ExprKind::Bool(v) => ExprKindV::Bool(v),
            ExprKind::Byte(v) => ExprKindV::Byte(v),
            ExprKind::String(v) => ExprKindV::String(v@),
            ExprKind::Identifier(v) => ExprKindV::Identifier(v@),
            ExprKind::Nullary(op) => ExprKindV::Nullary(op),
            ExprKind::Array(vs) => ExprKindV::Array(exprs_view(vs@)),
            ExprKind::Call { name, args } => ExprKindV::Call { name: name@, args: exprs_view(args@) },
            ExprKind::New { name, args } => ExprKindV::New { name: name@, args: exprs_view(args@) },
            ExprKind::Split { source, index, part } => ExprKindV::Split {
                source: Box::new(expr_view(*source)),
                index: Box::new(expr_view(*index)),
                part,
            },
            ExprKind::Slice { source, start, end } => ExprKindV::Slice {
                source: Box::new(expr_view(*source)),
                start: Box::new(expr_view(*start)),
                end: Box::new(expr_view(*end)),
            },
            ExprKind::Append { source, args } => ExprKindV::Append { source: Box::new(expr_view(*source)), args: exprs_view(args@) },
            ExprKind::ArrayIndex { source, index } => ExprKindV::ArrayIndex {
                source: Box::new(expr_view(*source)),
                index: Box::new(expr_view(*index)),
            },
            ExprKind::Unary { op, expr } => ExprKindV::Unary { op, expr: Box::new(expr_view(*expr)) },
            ExprKind::Binary { op, left, right } => ExprKindV::Binary {
                op,
                left: Box::new(expr_view(*left)),
                right: Box::new(expr_view(*right)),
            },
            ExprKind::IfElse { condition, then_expr, else_expr } => ExprKindV::IfElse {
                condition: Box::new(expr_view(*condition)),
                then_expr: Box::new(expr_view(*then_expr)),
                else_expr: Box::new(expr_view(*else_expr)),
            },
            ExprKind::Introspection { kind, index } => ExprKindV::Introspection { kind, index: Box::new(expr_view(*index)) },
            ExprKind::StructLiteral(fs) => ExprKindV::StructLiteral(fields_view(fs@)),
            ExprKind::FieldAccess { source, field } => ExprKindV::FieldAccess { source: Box::new(expr_view(*source)), field: field@ },
            ExprKind::UnarySuffix { source, kind } => ExprKindV::UnarySuffix { source: Box::new(expr_view(*source)), kind },
        },
        span: e.span,
    }
}

pub open spec fn exprs_view(s: Seq<Expr>) -> Seq<ExprV>
    decreases s,
{
    if s.len() == 0 {
        Seq::empty()
    } else {
        exprs_view(s.drop_last()).push(expr_view(s.last()))
    }
}

pub open spec fn fields_view(s: Seq<StateFieldExpr>) -> Seq<StateFieldV>
    decreases s,
{
    if s.len() == 0 {
        Seq::empty()
    } else {
        fields_view(s.drop_last()).push(StateFieldV { name: s.last().name@, expr: expr_view(s.last().expr), span: s.last().span })
    }
}

impl View for Expr {
    type V = ExprV;

    open spec fn view(&self) -> ExprV {
        expr_view(*self)
    }
}

/// The view of a list of expressions is the list of their views.
pub proof fn lemma_exprs_view(s: Seq<Expr>)
    ensures
        exprs_view(s).len() == s.len(),
        forall|j: int| 0 <= j < s.len() ==> #[trigger] exprs_view(s)[j] == expr_view(s[j]),
    decreases s.len(),
{
    if s.len() > 0 {
        lemma_exprs_view(s.drop_last());
        assert forall|j: int| 0 <= j < s.len() implies #[trigger] exprs_view(s)[j] == expr_view(s[j]) by {
            if j < s.len() - 1 {
                assert(s.drop_last()[j] == s[j]);
            }
        }
    }
}

/// The view of a pushed list.
pub proof fn lemma_exprs_view_push(s: Seq<Expr>, e: Expr)
    ensures
        exprs_view(s.push(e)) == exprs_view(s).push(expr_view(e)),
{
    assert(s.push(e).drop_last() =~= s);
}

/// The view of a pushed field list.
pub proof fn lemma_fields_view_push(s: Seq<StateFieldExpr>, f: StateFieldExpr)
    ensures
        fields_view(s.push(f)) == fields_view(s).push(StateFieldV { name: f.name@, expr: expr_view(f.expr), span: f.span }),
{
    assert(s.push(f).drop_last() =~= s);
}

impl Expr {
    /// An expression with an empty source range.
    pub fn new(kind: ExprKind, span: Span) -> (r: Expr)
        ensures
            r.kind == kind,
            r.span == span,
    {
        Expr { kind, span }
    }

    /// An integer literal.
    pub fn int_literal(v: i64) -> (r: Expr)
        ensures
            r@ == (ExprV { kind: ExprKindV::Int(v), span: Span { start: 0, end: 0 } }),
    {
        Expr { kind: ExprKind::Int(v), span: Span::empty() }
    }

    /// A call of `name` with `args`.
    pub fn call(name: &str, args: Vec<Expr>) -> (r: Expr)
        ensures
            r@ == (ExprV { kind: ExprKindV::Call { name: name@, args: exprs_view(args@) }, span: Span { start: 0, end: 0 } }),
    {
        Expr { kind: ExprKind::Call { name: name.to_owned(), args }, span: Span::empty() }
    }
}

/// `left op right`, with an empty source range.
pub fn binary_expr(op: BinaryOp, left: Expr, right: Expr) -> (r: Expr)
    ensures
        r@ == (ExprV {
            kind: ExprKindV::Binary { op, left: Box::new(left@), right: Box::new(right@) },
            span: Span { start: 0, end: 0 },
        }),
{
    Expr { kind: ExprKind::Binary { op, left: Box::new(left), right: Box::new(right) }, span: Span::empty() }
}

/// A copy of an expression.
pub fn clone_expr(e: &Expr) -> (r: Expr)
    ensures
        r@ == e@,
    decreases e,
{
    let kind = match &e.kind {
        ExprKind::Int(v) => ExprKind::Int(*v),
        ExprKind::Bool(v) => ExprKind::Bool(*v),
        ExprKind::Byte(v) => ExprKind::Byte(*v),
        ExprKind::String(v) => ExprKind::String(v.clone()),
        ExprKind::Identifier(v) => ExprKind::Identifier(v.clone()),
        ExprKind::Nullary(op) => ExprKind::Nullary(*op),
        ExprKind::Array(vs) => ExprKind::Array(clone_exprs(vs)),
        ExprKind::Call { name, args } => ExprKind::Call { name: name.clone(), args: clone_exprs(args) },
        ExprKind::New { name, args } => ExprKind::New { name: name.clone(), args: clone_exprs(args) },
        ExprKind::Split { source, index, part } => ExprKind::Split {
            source: Box::new(clone_expr(source)),
            index: Box::new(clone_expr(index)),
            part: *part,
        },
        ExprKind::Slice { source, start, end } => ExprKind::Slice {
            source: Box::new(clone_expr(source)),
            start: Box::new(clone_expr(start)),
            end: Box::new(clone_expr(end)),
        },
        ExprKind::Append { source, args } => ExprKind::Append { source: Box::new(clone_expr(source)), args: clone_exprs(args) },
        ExprKind::ArrayIndex { source, index } => ExprKind::ArrayIndex {
            source: Box::new(clone_expr(source)),
            index: Box::new(clone_expr(index)),
        },
        ExprKind::Unary { op, expr } => ExprKind::Unary { op: *op, expr: Box::new(clone_expr(expr)) },
        ExprKind::Binary { op, left, right } => ExprKind::Binary {
            op: *op,
            left: Box::new(clone_expr(left)),
            right: Box::new(clone_expr(right)),
        },
        ExprKind::IfElse { condition, then_expr, else_expr } => ExprKind::IfElse {
            condition: Box::new(clone_expr(condition)),
            then_expr: Box::new(clone_expr(then_expr)),
            else_expr: Box::new(clone_expr(else_expr)),
        },
        ExprKind::Introspection { kind, index } => ExprKind::Introspection { kind: *kind, index: Box::new(clone_expr(index)) },
        ExprKind::StructLiteral(fs) => ExprKind::StructLiteral(clone_fields(fs)),
        ExprKind::FieldAccess { source, field } => ExprKind::FieldAccess { source: Box::new(clone_expr(source)), field: field.clone() },
        ExprKind::UnarySuffix { source, kind } => ExprKind::UnarySuffix { source: Box::new(clone_expr(source)), kind: *kind },
    };
    Expr { kind, span: e.span }
}

/// A copy of a list of expressions.
pub fn clone_exprs(es: &Vec<Expr>) -> (r: Vec<Expr>)
    ensures
        exprs_view(r@) == exprs_view(es@),
    decreases es,
{
    let mut r: Vec<Expr> = Vec::new();
    let mut i: usize = 0;
    while i < es.len()
        invariant
            i <= es@.len(),
            exprs_view(r@) == exprs_view(es@.take(i as int)),
        decreases es@.len() - i,
    {
        let c = clone_expr(&es[i]);
        proof {
            lemma_exprs_view_push(r@, c);
            assert(es@.take(i + 1).drop_last() =~= es@.take(i as int));
        }
        r.push(c);
        i = i + 1;
    }
    assert(es@.take(es@.len() as int) =~= es@);
    r
}

/// A copy of a list of struct-literal fields.
pub fn clone_fields(fs: &Vec<StateFieldExpr>) -> (r: Vec<StateFieldExpr>)
    ensures
        fields_view(r@) == fields_view(fs@),
    decreases fs,
{
    let mut r: Vec<StateFieldExpr> = Vec::new();
    let mut i: usize = 0;
    while i < fs.len()
        invariant
            i <= fs@.len(),
            fields_view(r@) == fields_view(fs@.take(i as int)),
        decreases fs@.len() - i,
    {
        let f = StateFieldExpr { name: fs[i].name.clone(), expr: clone_expr(&fs[i].expr), span: fs[i].span };
        proof {
            lemma_fields_view_push(r@, f);
            assert(fs@.take(i + 1).drop_last() =~= fs@.take(i as int));
        }
        r.push(f);
        i = i + 1;
    }
    assert(fs@.take(fs@.len() as int) =~= fs@);
    r
}


/// A typed name: a function or contract parameter.
#[derive(Debug)]
pub struct ParamAst {
    pub type_ref: TypeRef,
    pub name: String,
}

/// A binding of one struct field to a typed local name.
#[derive(Debug)]
pub struct StructBindingAst {
    pub field_name: String,
    pub type_ref: TypeRef,
    pub name: String,
}

/// A statement with its source range.
#[derive(Debug)]
#[allow(inconsistent_fields)]
pub enum Statement {
    VariableDefinition { type_ref: TypeRef, modifiers: Vec<String>, name: String, expr: Option<Expr>, span: Span },
    TupleAssignment { left_type_ref: TypeRef, left_name: String, right_type_ref: TypeRef, right_name: String, expr: Expr, span: Span },
    FunctionCall { name: String, args: Vec<Expr>, span: Span },
    FunctionCallAssign { bindings: Vec<ParamAst>, name: String, args: Vec<Expr>, span: Span },
    StateFunctionCallAssign {
        target_struct: Option<String>,
        bindings: Vec<StructBindingAst>,
        name: String,
        args: Vec<Expr>,
        span: Span,
    },
    StructDestructure { bindings: Vec<StructBindingAst>, expr: Expr, span: Span },
    Assign { name: String, expr: Expr, span: Span },
    TimeOp { tx_var: TimeVar, expr: Expr, message: Option<String>, span: Span },
    Require { expr: Expr, message: Option<String>, span: Span },
    Block { body: Vec<Statement>, span: Span },
    If { condition: Expr, then_branch: Vec<Statement>, else_branch: Option<Vec<Statement>>, span: Span },
    For { ident: String, start: Expr, end: Expr, max_iterations: Expr, body: Vec<Statement>, span: Span },
    Return { exprs: Vec<Expr>, span: Span },
    Console { args: Vec<Expr>, span: Span },
}

/// View of a parameter.
pub struct ParamV {
    pub type_ref: TypeRefV,
    pub name: Seq<char>,
}

/// View of a struct-field binding.
pub struct StructBindingV {
    pub field_name: Seq<char>,
    pub type_ref: TypeRefV,
    pub name: Seq<char>,
}

/// View of a statement.
#[allow(inconsistent_fields)]
pub enum StatementV {
    VariableDefinition { type_ref: TypeRefV, modifiers: Seq<Seq<char>>, name: Seq<char>, expr: Option<ExprV>, span: Span },
    TupleAssignment { left_type_ref: TypeRefV, left_name: Seq<char>, right_type_ref: TypeRefV, right_name: Seq<char>, expr: ExprV, span: Span },
    FunctionCall { name: Seq<char>, args: Seq<ExprV>, span: Span },
    FunctionCallAssign { bindings: Seq<ParamV>, name: Seq<char>, args: Seq<ExprV>, span: Span },
    StateFunctionCallAssign {
        target_struct: Option<Seq<char>>,
        bindings: Seq<StructBindingV>,
        name: Seq<char>,
        args: Seq<ExprV>,
        span: Span,
    },
    StructDestructure { bindings: Seq<StructBindingV>, expr: ExprV, span: Span },
    Assign { name: Seq<char>, expr: ExprV, span: Span },
    TimeOp { tx_var: TimeVar, expr: ExprV, message: Option<Seq<char>>, span: Span },
    Require { expr: ExprV, message: Option<Seq<char>>, span: Span },
    Block { body: Seq<StatementV>, span: Span },
    If { condition: ExprV, then_branch: Seq<StatementV>, else_branch: Option<Seq<StatementV>>, span: Span },
    For { ident: Seq<char>, start: ExprV, end: ExprV, max_iterations: ExprV, body: Seq<StatementV>, span: Span },
    Return { exprs: Seq<ExprV>, span: Span },
    Console { args: Seq<ExprV>, span: Span },
}

pub open spec fn param_view(p: ParamAst) -> ParamV {
    ParamV { type_ref: p.type_ref@, name: p.name@ }
}

pub open spec fn params_view(s: Seq<ParamAst>) -> Seq<ParamV> {
    s.map_values(|p: ParamAst| param_view(p))
}

pub open spec fn binding_view(b: StructBindingAst) -> StructBindingV {
    StructBindingV { field_name: b.field_name@, type_ref: b.type_ref@, name: b.name@ }
}

pub open spec fn bindings_view(s: Seq<StructBindingAst>) -> Seq<StructBindingV> {
    s.map_values(|b: StructBindingAst| binding_view(b))
}

pub open spec fn strings_view(s: Seq<String>) -> Seq<Seq<char>> {
    s.map_values(|x: String| x@)
}

pub open spec fn opt_string_view(o: Option<String>) -> Option<Seq<char>> {
    match o {
        Some(x) => Some(x@),
        None => None,
    }
}

pub open spec fn opt_expr_view(o: Option<Expr>) -> Option<ExprV> {
    match o {
        Some(x) => Some(x@),
        None => None,
    }
}

pub open spec fn statement_view(st: Statement) -> StatementV
    decreases st,
{
    match st {
        Statement::VariableDefinition { type_ref, modifiers, name, expr, span } => StatementV::VariableDefinition {
            type_ref: type_ref@,
            modifiers: strings_view(modifiers@),
            name: name@,
            expr: opt_expr_view(expr),
            span,
        },
        Statement::TupleAssignment { left_type_ref, left_name, right_type_ref, right_name, expr, span } => StatementV::TupleAssignment {
            left_type_ref: left_type_ref@,
            left_name: left_name@,
            right_type_ref: right_type_ref@,
            right_name: right_name@,
            expr: expr@,
            span,
        },
        Statement::FunctionCall { name, args, span } => StatementV::FunctionCall { name: name@, args: exprs_view(args@), span },
        Statement::FunctionCallAssign { bindings, name, args, span } => StatementV::FunctionCallAssign {
            bindings: params_view(bindings@),
            name: name@,
            args: exprs_view(args@),
            span,
        },
        Statement::StateFunctionCallAssign { target_struct, bindings, name, args, span } => StatementV::StateFunctionCallAssign {
            target_struct: opt_string_view(target_struct),
            bindings: bindings_view(bindings@),
            name: name@,
            args: exprs_view(args@),
            span,
        },
        Statement::StructDestructure { bindings, expr, span } => StatementV::StructDestructure {
            bindings: bindings_view(bindings@),
            expr: expr@,
            span,
        },
        Statement::Assign { name, expr, span } => StatementV::Assign { name: name@, expr: expr@, span },
        Statement::TimeOp { tx_var, expr, message, span } => StatementV::TimeOp {
            tx_var,
            expr: expr@,
            message: opt_string_view(message),
            span,
        },
        Statement::Require { expr, message, span } => StatementV::Require { expr: expr@, message: opt_string_view(message), span },
        Statement::Block { body, span } => StatementV::Block { body: statements_view(body@), span },
        Statement::If { condition, then_branch, else_branch, span } => StatementV::If {
            condition: condition@,
            then_branch: statements_view(then_branch@),
            else_branch: match else_branch {
                Some(b) => Some(statements_view(b@)),
                None => None,
            },
            span,
        },
        Statement::For { ident, start, end, max_iterations, body, span } => StatementV::For {
            ident: ident@,
            start: start@,
            end: end@,
            max_iterations: max_iterations@,
            body: statements_view(body@),
            span,
        },
        Statement::Return { exprs, span } => StatementV::Return { exprs: exprs_view(exprs@), span },
        Statement::Console { args, span } => StatementV::Console { args: exprs_view(args@), span },
    }
}

pub open spec fn statements_view(s: Seq<Statement>) -> Seq<StatementV>
    decreases s,
{
    if s.len() == 0 {
        Seq::empty()
    } else {
        statements_view(s.drop_last()).push(statement_view(s.last()))
    }
}

impl View for Statement {
    type V = StatementV;

    open spec fn view(&self) -> StatementV {
        statement_view(*self)
    }
}

/// The view of a list of statements is the list of their views.
pub proof fn lemma_statements_view(s: Seq<Statement>)
    ensures
        statements_view(s).len() == s.len(),
        forall|j: int| 0 <= j < s.len() ==> #[trigger] statements_view(s)[j] == statement_view(s[j]),
    decreases s.len(),
{
    if s.len() > 0 {
        lemma_statements_view(s.drop_last());
        assert forall|j: int| 0 <= j < s.len() implies #[trigger] statements_view(s)[j] == statement_view(s[j]) by {
            if j < s.len() - 1 {
                assert(s.drop_last()[j] == s[j]);
            }
        }
    }
}

/// The view of a pushed statement list.
pub proof fn lemma_statements_view_push(s: Seq<Statement>, st: Statement)
    ensures
        statements_view(s.push(st)) == statements_view(s).push(statement_view(st)),
{
    assert(s.push(st).drop_last() =~= s);
}

/// A contract field: a typed name with its initial value.
#[derive(Debug)]
pub struct ContractFieldAst {
    pub type_ref: TypeRef,
    pub name: String,
    pub expr: Expr,
}

/// A contract constant.
#[derive(Debug)]
pub struct ConstantAst {
    pub type_ref: TypeRef,
    pub name: String,
    pub expr: Expr,
}

/// A contract function.
#[derive(Debug)]
pub struct FunctionAst {
    pub name: String,
    pub params: Vec<ParamAst>,
    pub return_types: Vec<TypeRef>,
    pub body: Vec<Statement>,
    pub entrypoint: bool,
}

/// A `pragma name value;` directive.
#[derive(Debug)]
pub struct PragmaAst {
    pub name: String,
    pub value: String,
}

/// A contract.
#[derive(Debug)]
pub struct ContractAst {
    pub name: String,
    pub params: Vec<ParamAst>,
    pub fields: Vec<ContractFieldAst>,
    pub constants: Vec<ConstantAst>,
    pub functions: Vec<FunctionAst>,
    pub pragma: Option<PragmaAst>,
}

/// One field of a struct declaration.
#[derive(Debug)]
pub struct StructFieldSpec {
    pub name: String,
    pub type_ref: TypeRef,
}

/// A struct declaration: its fields in order.
#[derive(Debug)]
pub struct StructSpec {
    pub fields: Vec<StructFieldSpec>,
}

/// The declared structs, each name once.
#[derive(Debug)]
pub struct StructRegistry {
    pub structs: Vec<(String, StructSpec)>,
}


/// The contract's constants by name: the first entry of a name is its
/// value.
#[derive(Debug)]
pub struct ConstantMap {
    pub entries: Vec<(String, Expr)>,
}

pub open spec fn constants_view(c: ConstantMap) -> Seq<(Seq<char>, ExprV)> {
    c.entries@.map_values(|e: (String, Expr)| (e.0@, e.1@))
}

/// The value of the constant `name`: the first entry with that name.
pub open spec fn const_value(cs: Seq<(Seq<char>, ExprV)>, name: Seq<char>) -> Option<ExprV>
    decreases cs.len(),
{
    if cs.len() == 0 {
        None
    } else if cs[0].0 == name {
        Some(cs[0].1)
    } else {
        const_value(cs.drop_first(), name)
    }
}

impl ConstantMap {
    /// The value of the constant `name`, if there is one.
    pub fn get(&self, name: &String) -> (r: Option<&Expr>)
        ensures
            match r {
                Some(e) => const_value(constants_view(*self), name@) == Some(e@),
                None => const_value(constants_view(*self), name@) is None,
            },
    {
        let ghost cs = constants_view(*self);
        assert(cs.skip(0) =~= cs);
        let mut i: usize = 0;
        while i < self.entries.len()
            invariant
                i <= self.entries@.len(),
                cs.len() == self.entries@.len(),
                cs == constants_view(*self),
                const_value(cs, name@) == const_value(cs.skip(i as int), name@),
            decreases self.entries@.len() - i,
        {
            let ghost rest = cs.skip(i as int);
            assert(rest[0] == (self.entries@[i as int].0@, self.entries@[i as int].1@));
            if self.entries[i].0 == *name {
                return Some(&self.entries[i].1);
            }
            assert(rest.drop_first() =~= cs.skip(i + 1));
            i = i + 1;
        }
        assert(cs.skip(i as int).len() == 0);
        None
    }
}

/// The name of the contract's state struct.
pub const STATE_TYPE_NAME: &'static str = "State";

} // verus!
