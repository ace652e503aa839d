//! The data the parser reads and writes: source spans, errors, data types,
//! operators, tokens, and the syntax tree, with the mathematical view of the
//! tree that the parser's contracts speak in.

use vstd::prelude::*;
use vstd::string::StringExecFns;

verus! {

/// Where a piece of source sits: lines and columns, both counted from 1.
#[derive(Debug, Clone, Copy, PartialEq, Eq, Structural)]
pub struct CodeSpan {
    pub start_line: usize,
    pub start_column: usize,
    pub end_line: usize,
    pub end_column: usize,
}

/// The span that stands for "nowhere in particular".
pub open spec fn no_span() -> CodeSpan {
    CodeSpan { start_line: 0, start_column: 0, end_line: 0, end_column: 0 }
}

impl Default for CodeSpan {
    fn default() -> (r: CodeSpan)
        ensures
            r == no_span(),
    {
        CodeSpan { start_line: 0, start_column: 0, end_line: 0, end_column: 0 }
    }
}

/// A problem found in the source: what it is, an optional hint, and where.
#[derive(Debug, Clone)]
pub struct CodeError {
    pub message: String,
    pub help: Option<String>,
    pub code_span: CodeSpan,
}

/// The view of an error: its texts as character sequences.
pub struct ErrorView {
    pub message: Seq<char>,
    pub help: Option<Seq<char>>,
    pub code_span: CodeSpan,
}

impl CodeError {
    pub open spec fn view(&self) -> ErrorView {
        ErrorView {
            message: self.message@,
            help: match self.help {
                Some(h) => Some(h@),
                None => None,
            },
            code_span: self.code_span,
        }
    }
}

/// The scope every node is created in; real scopes are assigned later, when
/// the program is analysed.
pub const GLOBAL_SCOPE: usize = 0;

/// The types a Nail value can have.
#[derive(Debug)]
pub enum NailDataTypeDescriptor {
    Int,
    Float,
    String,
    Boolean,
    Void,
    Error,
    Array(Box<NailDataTypeDescriptor>),
    HashMap(Box<NailDataTypeDescriptor>, Box<NailDataTypeDescriptor>),
    Struct(String),
}

/// A copy of a data type, field for field.
pub fn copy_type(t: &NailDataTypeDescriptor) -> (r: NailDataTypeDescriptor)
    ensures
        r == *t,
    decreases t,
{
    match t {
        NailDataTypeDescriptor::Int => NailDataTypeDescriptor::Int,
        NailDataTypeDescriptor::Float => NailDataTypeDescriptor::Float,
        NailDataTypeDescriptor::String => NailDataTypeDescriptor::String,
        NailDataTypeDescriptor::Boolean => NailDataTypeDescriptor::Boolean,
        NailDataTypeDescriptor::Void => NailDataTypeDescriptor::Void,
        NailDataTypeDescriptor::Error => NailDataTypeDescriptor::Error,
        NailDataTypeDescriptor::Array(inner) => NailDataTypeDescriptor::Array(Box::new(copy_type(inner))),
        NailDataTypeDescriptor::HashMap(key, value) => NailDataTypeDescriptor::HashMap(Box::new(copy_type(key)), Box::new(copy_type(value))),
        NailDataTypeDescriptor::Struct(name) => NailDataTypeDescriptor::Struct(name.clone()),
    }
}

/// The operators of the language.
#[derive(Debug, Clone, Copy, PartialEq, Eq, Structural)]
pub enum Operation {
    Add,
    Sub,
    Mul,
    Div,
    Mod,
    Eq,
    Ne,
    Lt,
    Lte,
    Gt,
    Gte,
    And,
    Or,
    Not,
    Neg,
}

impl Operation {
    /// How tightly the operator binds: higher binds tighter.
    pub open spec fn binding(self) -> u8 {
        match self {
            Operation::Or => 1,
            Operation::And => 2,
            Operation::Eq | Operation::Ne => 3,
            Operation::Lt | Operation::Lte | Operation::Gt | Operation::Gte => 4,
            Operation::Add | Operation::Sub => 5,
            Operation::Mul | Operation::Div | Operation::Mod => 6,
            Operation::Not | Operation::Neg => 7,
        }
    }

    /// How tightly the operator binds: higher binds tighter.
    pub fn precedence(&self) -> (r: u8)
        ensures
            r == self.binding(),
            r <= 7,
    {
        match self {
            Operation::Or => 1,
            Operation::And => 2,
            Operation::Eq | Operation::Ne => 3,
            Operation::Lt | Operation::Lte | Operation::Gt | Operation::Gte => 4,
            Operation::Add | Operation::Sub => 5,
            Operation::Mul | Operation::Div | Operation::Mod => 6,
            Operation::Not | Operation::Neg => 7,
        }
    }

    /// Whether the operator takes one operand, written in front of it.
    pub open spec fn takes_one(self) -> bool {
        self == Operation::Not || self == Operation::Neg
    }

    /// Whether the operator takes one operand, written in front of it.
    pub fn is_unary(&self) -> (r: bool)
        ensures
            r == self.takes_one(),
    {
        match self {
            Operation::Not | Operation::Neg => true,
            _ => false,
        }
    }

    /// How the operator is written.
    pub open spec fn written(self) -> Seq<char> {
        match self {
            Operation::Add => "+"@,
            Operation::Sub => "-"@,
            Operation::Mul => "*"@,
            Operation::Div => "/"@,
            Operation::Mod => "%"@,
            Operation::Eq => "=="@,
            Operation::Ne => "!="@,
            Operation::Lt => "<"@,
            Operation::Lte => "<="@,
            Operation::Gt => ">"@,
            Operation::Gte => ">="@,
            Operation::And => "&&"@,
            Operation::Or => "||"@,
            Operation::Not => "!"@,
            Operation::Neg => "-"@,
        }
    }

    /// How the operator is written.
    pub fn symbol(&self) -> (r: String)
        ensures
            r@ == self.written(),
    {
        match self {
            Operation::Add => String::from_str("+"),
            Operation::Sub => String::from_str("-"),
            Operation::Mul => String::from_str("*"),
            Operation::Div => String::from_str("/"),
            Operation::Mod => String::from_str("%"),
            Operation::Eq => String::from_str("=="),
            Operation::Ne => String::from_str("!="),
            Operation::Lt => String::from_str("<"),
            Operation::Lte => String::from_str("<="),
            Operation::Gt => String::from_str(">"),
            Operation::Gte => String::from_str(">="),
            Operation::And => String::from_str("&&"),
            Operation::Or => String::from_str("||"),
            Operation::Not => String::from_str("!"),
            Operation::Neg => String::from_str("-"),
        }
    }
}

/// One field of a struct declaration as the lexer reads it.
#[derive(Debug)]
pub struct StructField {
    pub name: String,
    pub data_type: NailDataTypeDescriptor,
}

/// A struct declaration as the lexer reads it: the name and the fields.
#[derive(Debug)]
pub struct StructDeclarationData {
    pub name: String,
    pub fields: Vec<StructField>,
}

/// An enum declaration as the lexer reads it: the name and the tokens of its
/// variants.
#[derive(Debug)]
pub struct EnumDeclarationData {
    pub name: String,
    pub variants: Vec<Token>,
}

/// One enum variant, `Color::Red`: the enum's name and the variant's.
#[derive(Debug)]
pub struct EnumVariantData {
    pub name: String,
    pub variant: String,
}

/// What a token is.
#[derive(Debug)]
pub enum TokenType {
    Identifier(String),
    Integer(String),
    Float(String),
    StringLiteral { value: String, tag: Option<String> },
    BooleanLiteral(bool),
    Operator(Operation),
    ParenthesisOpen,
    ParenthesisClose,
    BlockOpen,
    BlockClose,
    ArrayOpen,
    ArrayClose,
    Comma,
    Colon,
    Dot,
    Assignment,
    ArrowAssignment,
    EndStatementOrExpression,
    EndOfFile,
    IfDeclaration,
    ElseDeclaration,
    MapDeclaration,
    FilterDeclaration,
    ReduceDeclaration,
    ScanDeclaration,
    EachDeclaration,
    FindDeclaration,
    AllDeclaration,
    AnyDeclaration,
    ForeverKeyword,
    ParallelStart,
    ParallelEnd,
    ConcurrentStart,
    ConcurrentEnd,
    Return,
    Yield,
    InKeyword,
    FromKeyword,
    SandboxStart,
    SandboxEnd,
    StructDeclaration(StructDeclarationData),
    EnumDeclaration(EnumDeclarationData),
    EnumVariant(EnumVariantData),
    FunctionSignature(Vec<Token>),
    FunctionName(String),
    TypeDeclaration(NailDataTypeDescriptor),
    FunctionReturnTypeDeclaration(NailDataTypeDescriptor),
}

/// A token and where it was read.
#[derive(Debug)]
pub struct Token {
    pub token_type: TokenType,
    pub code_span: CodeSpan,
}

/// What kind of token something is, without its payload: the kinds a parser
/// step expects by name.
#[derive(Debug, Clone, Copy, PartialEq, Eq, Structural)]
pub enum TokenKind {
    Identifier,
    Integer,
    Float,
    StringLiteral,
    BooleanLiteral,
    Operator,
    ParenthesisOpen,
    ParenthesisClose,
    BlockOpen,
    BlockClose,
    ArrayOpen,
    ArrayClose,
    Comma,
    Colon,
    Dot,
    Assignment,
    ArrowAssignment,
    EndStatementOrExpression,
    EndOfFile,
    IfDeclaration,
    ElseDeclaration,
    MapDeclaration,
    FilterDeclaration,
    ReduceDeclaration,
    ScanDeclaration,
    EachDeclaration,
    FindDeclaration,
    AllDeclaration,
    AnyDeclaration,
    ForeverKeyword,
    ParallelStart,
    ParallelEnd,
    ConcurrentStart,
    ConcurrentEnd,
    Return,
    Yield,
    InKeyword,
    FromKeyword,
    SandboxStart,
    SandboxEnd,
    StructDeclaration,
    EnumDeclaration,
    EnumVariant,
    FunctionSignature,
    FunctionName,
    TypeDeclaration,
    FunctionReturnTypeDeclaration,
}

impl TokenType {
    /// The kind of the token.
    pub open spec fn kind_of(&self) -> TokenKind {
        match self {
            TokenType::Identifier(_) => TokenKind::Identifier,
            TokenType::Integer(_) => TokenKind::Integer,
            TokenType::Float(_) => TokenKind::Float,
            TokenType::StringLiteral { .. } => TokenKind::StringLiteral,
            TokenType::BooleanLiteral(_) => TokenKind::BooleanLiteral,
            TokenType::Operator(_) => TokenKind::Operator,
            TokenType::ParenthesisOpen => TokenKind::ParenthesisOpen,
            TokenType::ParenthesisClose => TokenKind::ParenthesisClose,
            TokenType::BlockOpen => TokenKind::BlockOpen,
            TokenType::BlockClose => TokenKind::BlockClose,
            TokenType::ArrayOpen => TokenKind::ArrayOpen,
            TokenType::ArrayClose => TokenKind::ArrayClose,
            TokenType::Comma => TokenKind::Comma,
            TokenType::Colon => TokenKind::Colon,
            TokenType::Dot => TokenKind::Dot,
            TokenType::Assignment => TokenKind::Assignment,
            TokenType::ArrowAssignment => TokenKind::ArrowAssignment,
            TokenType::EndStatementOrExpression => TokenKind::EndStatementOrExpression,
            TokenType::EndOfFile => TokenKind::EndOfFile,
            TokenType::IfDeclaration => TokenKind::IfDeclaration,
            TokenType::ElseDeclaration => TokenKind::ElseDeclaration,
            TokenType::MapDeclaration => TokenKind::MapDeclaration,
            TokenType::FilterDeclaration => TokenKind::FilterDeclaration,
            TokenType::ReduceDeclaration => TokenKind::ReduceDeclaration,
            TokenType::ScanDeclaration => TokenKind::ScanDeclaration,
            TokenType::EachDeclaration => TokenKind::EachDeclaration,
            TokenType::FindDeclaration => TokenKind::FindDeclaration,
            TokenType::AllDeclaration => TokenKind::AllDeclaration,
            TokenType::AnyDeclaration => TokenKind::AnyDeclaration,
            TokenType::ForeverKeyword => TokenKind::ForeverKeyword,
            TokenType::ParallelStart => TokenKind::ParallelStart,
            TokenType::ParallelEnd => TokenKind::ParallelEnd,
            TokenType::ConcurrentStart => TokenKind::ConcurrentStart,
            TokenType::ConcurrentEnd => TokenKind::ConcurrentEnd,
            TokenType::Return => TokenKind::Return,
            TokenType::Yield => TokenKind::Yield,
            TokenType::InKeyword => TokenKind::InKeyword,
            TokenType::FromKeyword => TokenKind::FromKeyword,
            TokenType::SandboxStart => TokenKind::SandboxStart,
            TokenType::SandboxEnd => TokenKind::SandboxEnd,
            TokenType::StructDeclaration(_) => TokenKind::StructDeclaration,
            TokenType::EnumDeclaration(_) => TokenKind::EnumDeclaration,
            TokenType::EnumVariant(_) => TokenKind::EnumVariant,
            TokenType::FunctionSignature(_) => TokenKind::FunctionSignature,
            TokenType::FunctionName(_) => TokenKind::FunctionName,
            TokenType::TypeDeclaration(_) => TokenKind::TypeDeclaration,
            TokenType::FunctionReturnTypeDeclaration(_) => TokenKind::FunctionReturnTypeDeclaration,
        }
    }

    /// The kind of the token.
    pub fn kind(&self) -> (r: TokenKind)
        ensures
            r == self.kind_of(),
    {
        match self {
            TokenType::Identifier(_) => TokenKind::Identifier,
            TokenType::Integer(_) => TokenKind::Integer,
            TokenType::Float(_) => TokenKind::Float,
            TokenType::StringLiteral { .. } => TokenKind::StringLiteral,
            TokenType::BooleanLiteral(_) => TokenKind::BooleanLiteral,
            TokenType::Operator(_) => TokenKind::Operator,
            TokenType::ParenthesisOpen => TokenKind::ParenthesisOpen,
            TokenType::ParenthesisClose => TokenKind::ParenthesisClose,
            TokenType::BlockOpen => TokenKind::BlockOpen,
            TokenType::BlockClose => TokenKind::BlockClose,
            TokenType::ArrayOpen => TokenKind::ArrayOpen,
            TokenType::ArrayClose => TokenKind::ArrayClose,
            TokenType::Comma => TokenKind::Comma,
            TokenType::Colon => TokenKind::Colon,
            TokenType::Dot => TokenKind::Dot,
            TokenType::Assignment => TokenKind::Assignment,
            TokenType::ArrowAssignment => TokenKind::ArrowAssignment,
            TokenType::EndStatementOrExpression => TokenKind::EndStatementOrExpression,
            TokenType::EndOfFile => TokenKind::EndOfFile,
            TokenType::IfDeclaration => TokenKind::IfDeclaration,
            TokenType::ElseDeclaration => TokenKind::ElseDeclaration,
            TokenType::MapDeclaration => TokenKind::MapDeclaration,
            TokenType::FilterDeclaration => TokenKind::FilterDeclaration,
            TokenType::ReduceDeclaration => TokenKind::ReduceDeclaration,
            TokenType::ScanDeclaration => TokenKind::ScanDeclaration,
            TokenType::EachDeclaration => TokenKind::EachDeclaration,
            TokenType::FindDeclaration => TokenKind::FindDeclaration,
            TokenType::AllDeclaration => TokenKind::AllDeclaration,
            TokenType::AnyDeclaration => TokenKind::AnyDeclaration,
            TokenType::ForeverKeyword => TokenKind::ForeverKeyword,
            TokenType::ParallelStart => TokenKind::ParallelStart,
            TokenType::ParallelEnd => TokenKind::ParallelEnd,
            TokenType::ConcurrentStart => TokenKind::ConcurrentStart,
            TokenType::ConcurrentEnd => TokenKind::ConcurrentEnd,
            TokenType::Return => TokenKind::Return,
            TokenType::Yield => TokenKind::Yield,
            TokenType::InKeyword => TokenKind::InKeyword,
            TokenType::FromKeyword => TokenKind::FromKeyword,
            TokenType::SandboxStart => TokenKind::SandboxStart,
            TokenType::SandboxEnd => TokenKind::SandboxEnd,
            TokenType::StructDeclaration(_) => TokenKind::StructDeclaration,
            TokenType::EnumDeclaration(_) => TokenKind::EnumDeclaration,
            TokenType::EnumVariant(_) => TokenKind::EnumVariant,
            TokenType::FunctionSignature(_) => TokenKind::FunctionSignature,
            TokenType::FunctionName(_) => TokenKind::FunctionName,
            TokenType::TypeDeclaration(_) => TokenKind::TypeDeclaration,
            TokenType::FunctionReturnTypeDeclaration(_) => TokenKind::FunctionReturnTypeDeclaration,
        }
    }
}

impl TokenKind {
    /// A plain-language name for a kind of token, used in error messages.
    pub open spec fn description(self) -> Seq<char> {
        match self {
            TokenKind::Identifier => "a name"@,
            TokenKind::Integer => "a whole number"@,
            TokenKind::Float => "a decimal number"@,
            TokenKind::StringLiteral => "a string"@,
            TokenKind::BooleanLiteral => "true or false"@,
            TokenKind::Operator => "an operator"@,
            TokenKind::ParenthesisOpen => "'('"@,
            TokenKind::ParenthesisClose => "')'"@,
            TokenKind::BlockOpen => "'{'"@,
            TokenKind::BlockClose => "'}'"@,
            TokenKind::ArrayOpen => "'['"@,
            TokenKind::ArrayClose => "']'"@,
            TokenKind::Comma => "','"@,
            TokenKind::Colon => "':'"@,
            TokenKind::Dot => "'.'"@,
            TokenKind::Assignment => "'='"@,
            TokenKind::ArrowAssignment => "'->'"@,
            TokenKind::EndStatementOrExpression => "';'"@,
            TokenKind::EndOfFile => "the end of the file"@,
            TokenKind::IfDeclaration => "'if'"@,
            TokenKind::ElseDeclaration => "'else'"@,
            TokenKind::MapDeclaration => "'map'"@,
            TokenKind::FilterDeclaration => "'filter'"@,
            TokenKind::ReduceDeclaration => "'reduce'"@,
            TokenKind::ScanDeclaration => "'scan'"@,
            TokenKind::EachDeclaration => "'each'"@,
            TokenKind::FindDeclaration => "'find'"@,
            TokenKind::AllDeclaration => "'all'"@,
            TokenKind::AnyDeclaration => "'any'"@,
            TokenKind::ForeverKeyword => "'forever'"@,
            TokenKind::ParallelStart => "the start of a parallel block"@,
            TokenKind::ParallelEnd => "the end of a parallel block"@,
            TokenKind::ConcurrentStart => "the start of a concurrent block"@,
            TokenKind::ConcurrentEnd => "the end of a concurrent block"@,
            TokenKind::Return => "'r'"@,
            TokenKind::Yield => "'y'"@,
            TokenKind::InKeyword => "'in'"@,
            TokenKind::FromKeyword => "'from'"@,
            TokenKind::SandboxStart => "the start of an imported file"@,
            TokenKind::SandboxEnd => "the end of an imported file"@,
            TokenKind::StructDeclaration => "a struct declaration"@,
            TokenKind::EnumDeclaration => "an enum declaration"@,
            TokenKind::EnumVariant => "an enum variant"@,
            TokenKind::FunctionSignature => "a function declaration"@,
            TokenKind::FunctionName => "a function name"@,
            TokenKind::TypeDeclaration => "a type"@,
            TokenKind::FunctionReturnTypeDeclaration => "a return type"@,
        }
    }

    /// A plain-language name for a kind of token, used in error messages.
    pub fn describe(&self) -> (r: String)
        ensures
            r@ == self.description(),
    {
        match self {
            TokenKind::Identifier => String::from_str("a name"),
            TokenKind::Integer => String::from_str("a whole number"),
            TokenKind::Float => String::from_str("a decimal number"),
            TokenKind::StringLiteral => String::from_str("a string"),
            TokenKind::BooleanLiteral => String::from_str("true or false"),
            TokenKind::Operator => String::from_str("an operator"),
            TokenKind::ParenthesisOpen => String::from_str("'('"),
            TokenKind::ParenthesisClose => String::from_str("')'"),
            TokenKind::BlockOpen => String::from_str("'{'"),
            TokenKind::BlockClose => String::from_str("'}'"),
            TokenKind::ArrayOpen => String::from_str("'['"),
            TokenKind::ArrayClose => String::from_str("']'"),
            TokenKind::Comma => String::from_str("','"),
            TokenKind::Colon => String::from_str("':'"),
            TokenKind::Dot => String::from_str("'.'"),
            TokenKind::Assignment => String::from_str("'='"),
            TokenKind::ArrowAssignment => String::from_str("'->'"),
            TokenKind::EndStatementOrExpression => String::from_str("';'"),
            TokenKind::EndOfFile => String::from_str("the end of the file"),
            TokenKind::IfDeclaration => String::from_str("'if'"),
            TokenKind::ElseDeclaration => String::from_str("'else'"),
            TokenKind::MapDeclaration => String::from_str("'map'"),
            TokenKind::FilterDeclaration => String::from_str("'filter'"),
            TokenKind::ReduceDeclaration => String::from_str("'reduce'"),
            TokenKind::ScanDeclaration => String::from_str("'scan'"),
            TokenKind::EachDeclaration => String::from_str("'each'"),
            TokenKind::FindDeclaration => String::from_str("'find'"),
            TokenKind::AllDeclaration => String::from_str("'all'"),
            TokenKind::AnyDeclaration => String::from_str("'any'"),
            TokenKind::ForeverKeyword => String::from_str("'forever'"),
            TokenKind::ParallelStart => String::from_str("the start of a parallel block"),
            TokenKind::ParallelEnd => String::from_str("the end of a parallel block"),
            TokenKind::ConcurrentStart => String::from_str("the start of a concurrent block"),
            TokenKind::ConcurrentEnd => String::from_str("the end of a concurrent block"),
            TokenKind::Return => String::from_str("'r'"),
            TokenKind::Yield => String::from_str("'y'"),
            TokenKind::InKeyword => String::from_str("'in'"),
            TokenKind::FromKeyword => String::from_str("'from'"),
            TokenKind::SandboxStart => String::from_str("the start of an imported file"),
            TokenKind::SandboxEnd => String::from_str("the end of an imported file"),
            TokenKind::StructDeclaration => String::from_str("a struct declaration"),
            TokenKind::EnumDeclaration => String::from_str("an enum declaration"),
            TokenKind::EnumVariant => String::from_str("an enum variant"),
            TokenKind::FunctionSignature => String::from_str("a function declaration"),
            TokenKind::FunctionName => String::from_str("a function name"),
            TokenKind::TypeDeclaration => String::from_str("a type"),
            TokenKind::FunctionReturnTypeDeclaration => String::from_str("a return type"),
        }
    }
}

} // verus!
