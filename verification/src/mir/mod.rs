pub mod display;
pub mod eq;
pub mod expr;
pub mod flatten;
pub mod function;
pub mod inline;
pub mod copy;
pub mod interpreter;
pub mod label;
pub mod mangle;
pub mod opt;
pub mod quine;
pub mod reach;
pub mod register;
pub mod overloads;
pub mod prim;
pub mod type_check;
pub mod var;
pub mod types;
pub mod view;

pub use overloads::FunctionOverloads;

use crate::parser::span::Span;
use vstd::prelude::*;

verus! {

/// Identifies a constant of a program.
#[derive(Debug, Clone, Copy, PartialEq, Eq, Structural)]
pub struct MIRConstKey(pub usize);

/// Identifies a static of a program.
#[derive(Debug, Clone, Copy, PartialEq, Eq, Structural)]
pub struct MIRStaticKey(pub usize);

/// Identifies a function of a program.
#[derive(Debug, Clone, Copy, PartialEq, Eq, Structural)]
pub struct MIRFunctionKey(pub usize);

/// Identifies a top-level marker of a program.
#[derive(Debug, Clone, Copy, PartialEq, Eq, Structural)]
pub struct MIRMarkerKey(pub usize);

/// A declaration (base-level statement), by key.
#[derive(Debug, Clone, Copy, PartialEq, Eq, Structural)]
pub enum MIRDeclarationKey {
    Constant(MIRConstKey),
    Static(MIRStaticKey),
    Function(MIRFunctionKey),
    Marker(MIRMarkerKey),
}

/// The type of data a value holds.
#[derive(Debug)]
pub enum MIRTypeInner {
    /// A number whose type isn't resolved yet.
    UnknownNumber,
    /// A value whose type isn't known yet (e.g., the elements of an empty array).
    NotConstructed,
    /// Signed 32-bit integer.
    I32,
    /// Unsigned 32-bit integer.
    U32,
    /// Boolean value.
    Bool,
    /// Unit type (void).
    Unit,
    /// String (language-dependent).
    String,
    /// A single character.
    Char,
    /// A function pointer, args -> return value.
    FunctionPtr(MIRFunctionArgs, Box<MIRTypeInner>),
    /// A named type (struct).
    Named(String),
    /// A reference to data of the inner type.
    Ref(Box<MIRTypeInner>),
    /// An array of elements of the inner type, passed by reference.
    Array(Box<MIRTypeInner>),
    /// An array of a fixed size.
    ArrayFixed(Box<MIRTypeInner>, usize),
}

/// The type signature of a function, which along with its name, uniquely identifies it.
#[derive(Debug)]
pub struct MIRFunctionArgs {
    /// The fixed argument types.
    pub args: Vec<MIRTypeInner>,
    /// Whether additional variadic arguments are accepted.
    pub variadic: bool,
}

/// A type together with the code it was written at (if any).
#[derive(Debug)]
pub struct MIRType {
    /// The type itself.
    pub ty: MIRTypeInner,
    /// Where the type was written or inferred.
    pub span: Option<Span>,
}

/// A named point in the program whose position is kept up to the output.
#[derive(Debug)]
pub struct MIRMarker {
    /// The marker's name.
    pub name: String,
    /// The code that created this item.
    pub span: Span,
}

/// An expression that evaluates to some value.
#[derive(Debug)]
pub struct MIRExpression {
    /// The expression.
    pub inner: MIRExpressionInner,
    /// The expression's type, available after type checking.
    pub ty: Option<MIRType>,
    /// The expression's span.
    pub span: Span,
}

/// The kinds of expressions.
#[derive(Debug)]
pub enum MIRExpressionInner {
    Add(Box<MIRExpression>, Box<MIRExpression>),
    Sub(Box<MIRExpression>, Box<MIRExpression>),
    Mul(Box<MIRExpression>, Box<MIRExpression>),
    Div(Box<MIRExpression>, Box<MIRExpression>),
    Equal(Box<MIRExpression>, Box<MIRExpression>),
    NotEqual(Box<MIRExpression>, Box<MIRExpression>),
    Less(Box<MIRExpression>, Box<MIRExpression>),
    Greater(Box<MIRExpression>, Box<MIRExpression>),
    LessEq(Box<MIRExpression>, Box<MIRExpression>),
    GreaterEq(Box<MIRExpression>, Box<MIRExpression>),
    BoolAnd(Box<MIRExpression>, Box<MIRExpression>),
    BoolOr(Box<MIRExpression>, Box<MIRExpression>),
    /// Number literal, wide enough for every supported integer type.
    Number(i128),
    /// String literal.
    String(String),
    /// Character literal.
    Char(char),
    /// Bool literal.
    Bool(bool),
    /// Unit literal.
    Unit,
    /// Variable access: the name and, once assigned, the variable's index.
    Variable(String, Option<usize>),
    /// Function call (using the return value).
    FunctionCall(Box<MIRFnCall>),
    /// Reference (address-of).
    Ref(Box<MIRExpression>),
    /// Dereference.
    Deref(Box<MIRExpression>),
    /// Arithmetic negation.
    Neg(Box<MIRExpression>),
    /// Logical negation.
    Not(Box<MIRExpression>),
    /// Member access (a.b).
    Member(Box<MIRExpression>, String),
    /// Index access (a[b]).
    Index(Box<MIRExpression>, Box<MIRExpression>),
    /// Array literal.
    Array(Vec<MIRExpression>),
    /// cond ? on_true : on_false.
    Ternary(Box<MIRExpression>, Box<MIRExpression>, Box<MIRExpression>),
    /// The program's own source, as an array of fragments.
    Quine,
    /// The number of fragments in the quine array.
    QuineLen,
    /// The character standing in for a space in quine fragments.
    QuineSpace,
    /// The character standing in for a newline in quine fragments.
    QuineLine,
    /// An expression fenced by a left and a right marker.
    Binding(MIRMarker, Box<MIRExpression>, MIRMarker),
}

/// A function call.
#[derive(Debug)]
pub struct MIRFnCall {
    /// The source for the function (name or pointer).
    pub source: MIRFnSource,
    /// The function's arguments.
    pub args: Vec<MIRExpression>,
    /// The arguments' types, available after type checking.
    pub args_ty: Option<MIRFunctionArgs>,
    /// The function's return type, if known.
    pub ret_ty: Option<MIRType>,
    /// The entire function call.
    pub span: Span,
}

/// Where the function of a call comes from.
#[derive(Debug)]
pub enum MIRFnSource {
    /// A direct call by function name.
    Direct(String, Span),
    /// An indirect call through a function pointer value.
    Indirect(MIRExpression),
}

/// A variable inside a function.
#[derive(Debug)]
pub struct MIRVariable {
    /// The variable's name.
    pub name: String,
    /// The type of the data stored inside the variable.
    pub ty: MIRType,
    /// Whether this is a (phantom) function argument variable.
    pub arg: bool,
    /// The variable's unique index within its function, once assigned.
    pub var_idx: Option<usize>,
    /// The code that created this item.
    pub span: Span,
}

/// A statement inside a function's body.
#[derive(Debug)]
pub enum MIRStatement {
    /// Creates a new variable with an optional initial value.
    CreateVariable { var: MIRVariable, value: Option<MIRExpression>, span: Span },
    /// Drops the value stored inside a variable: its name and index.
    DropVariable(String, usize, Span),
    /// Sets a place to a value.
    SetVariable { place: MIRExpression, value: MIRExpression, span: Span },
    /// place++.
    IncrementVariable { place: MIRExpression, span: Span },
    /// place--.
    DecrementVariable { place: MIRExpression, span: Span },
    /// place += value.
    AddAssign { place: MIRExpression, value: MIRExpression, span: Span },
    /// place -= value.
    SubAssign { place: MIRExpression, value: MIRExpression, span: Span },
    /// place *= value.
    MulAssign { place: MIRExpression, value: MIRExpression, span: Span },
    /// place /= value.
    DivAssign { place: MIRExpression, value: MIRExpression, span: Span },
    /// Calls a function, ignoring its return value.
    FunctionCall(MIRFnCall),
    /// Exits the function with an optional value.
    Return { expr: Option<MIRExpression>, span: Span },
    /// A label that can be jumped to.
    Label { name: String, span: Span },
    /// Jumps to the label; index is the label's position once resolved.
    Goto { name: String, index: Option<usize>, span: Span },
    /// Jumps to the label if the condition is false.
    GotoNotEqual { name: String, index: Option<usize>, condition: MIRExpression, span: Span },
    /// An if statement.
    IfStatement {
        condition: MIRExpression,
        on_true: Vec<MIRStatement>,
        on_false: Vec<MIRStatement>,
        span: Span,
    },
    /// A loop, running while the optional condition holds, with an optional
    /// statement run after each iteration.
    LoopStatement {
        condition: Option<MIRExpression>,
        body: Vec<MIRStatement>,
        iterate: Vec<MIRStatement>,
        span: Span,
    },
    /// A nested scope.
    ScopeStatement { body: Vec<MIRStatement>, span: Span },
    /// Goes to the top of the enclosing loop.
    ContinueStatement { span: Span },
    /// Exits the enclosing loop.
    BreakStatement { span: Span },
    /// A marker inside a function body.
    MarkerStatement { name: String, span: Span },
}

/// How a function is used and emitted.
#[derive(Debug, Clone, Copy, PartialEq, Eq, Structural)]
pub enum MIRFunctionType {
    /// Exported to the target code.
    Export,
    /// Directly inlined at the call site.
    Inline,
    /// Exported only if called.
    Helper,
    /// An external function with no body.
    Extern,
}

/// A function.
#[derive(Debug)]
pub struct MIRFunction {
    /// The function's name.
    pub name: String,
    /// How the function is used and emitted.
    pub fn_type: MIRFunctionType,
    /// The function's return type.
    pub ret_ty: MIRType,
    /// The arguments the function takes.
    pub args: Vec<MIRVariable>,
    /// The types of the arguments.
    pub args_ty: MIRFunctionArgs,
    /// The statements run when the function is called.
    pub body: Vec<MIRStatement>,
    /// The code that created this item.
    pub span: Span,
    /// Required import for extern functions (e.g., "<stdio.h>").
    pub extern_import: Option<String>,
}

/// A constant: evaluated at compile time and inlined at every use.
#[derive(Debug)]
pub struct MIRConstant {
    pub name: String,
    pub ty: MIRType,
    pub value: MIRExpression,
    pub span: Span,
}

/// A static: a global variable in the output.
#[derive(Debug)]
pub struct MIRStatic {
    pub name: String,
    pub ty: MIRType,
    pub value: MIRExpression,
    pub span: Span,
}

/// A declaration (base-level statement).
#[derive(Debug)]
pub enum MIRDeclaration {
    Constant(MIRConstant),
    Static(MIRStatic),
    Function(MIRFunction),
    Marker(MIRMarker),
}

/// A whole program. A key of a constant, static or function is its index in
/// the vector of those items.
#[derive(Debug)]
pub struct MIRProgram {
    /// All the declarations in the program, in order.
    pub decls: Vec<MIRDeclarationKey>,
    /// The constants of the program.
    pub constants: Vec<MIRConstant>,
    /// The statics of the program.
    pub statics: Vec<MIRStatic>,
    /// The functions of the program.
    pub functions: Vec<MIRFunction>,
    /// The top-level markers of the program.
    pub markers: Vec<MIRMarker>,
    /// Name -> function overloads.
    pub function_names: Vec<(String, FunctionOverloads)>,
    /// Imports required by used extern functions.
    pub required_imports: Vec<String>,
}

impl MIRProgram {
    /// Whether a key names an item of the program.
    pub open spec fn has_key(&self, k: MIRDeclarationKey) -> bool {
        match k {
            MIRDeclarationKey::Constant(c) => c.0 < self.constants@.len(),
            MIRDeclarationKey::Static(c) => c.0 < self.statics@.len(),
            MIRDeclarationKey::Function(c) => c.0 < self.functions@.len(),
            MIRDeclarationKey::Marker(c) => c.0 < self.markers@.len(),
        }
    }

    /// Every declaration and every overload names an item of the program.
    pub open spec fn wf(&self) -> bool {
        &&& forall|i: int| 0 <= i < self.decls@.len() ==> self.has_key(#[trigger] self.decls@[i])
        &&& forall|i: int, j: int|
            0 <= i < self.function_names@.len() && 0 <= j < self.function_names@[i].1@.len()
                ==> (#[trigger] self.function_names@[i].1@[j]).1.0 < self.functions@.len()
    }
}

} // verus!
