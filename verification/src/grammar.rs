//! The grammar of Nail as mathematics: what the parser reads out of a token
//! sequence, written as functions from a position in the tokens to a result
//! and the position after it.
//!
//! A position counts how many tokens have been taken, up to two past the
//! end (taking at the end takes nothing, and the token before the one last
//! taken is remembered for error spans). Every function also carries how
//! deeply statements and expressions are nested (`d`), how deeply the type
//! being read is nested (`td`), and how many imported files the parser is
//! inside (`sb`).

use vstd::prelude::*;
use crate::ast::{SNode, span_of, first_deep};
use crate::syntax::{CodeSpan, ErrorView, GLOBAL_SCOPE, NailDataTypeDescriptor, Operation, Token, TokenKind, TokenType, no_span};
use crate::text::int_text;

verus! {

/// How deeply expressions, statements and blocks may nest.
pub const MAX_NESTING_DEPTH: usize = 128;

/// How deep the finished tree may be.
pub const MAX_AST_DEPTH: usize = 512;

/// How deeply a type may nest.
pub const MAX_TYPE_DEPTH: usize = 32;

/// What a parser step yields: a node or an error, and the position after.
pub type Step = (Result<SNode, ErrorView>, nat);

/// An error with no help text.
pub open spec fn plain(message: Seq<char>, span: CodeSpan) -> ErrorView {
    ErrorView { message, help: None, code_span: span }
}

/// An error with help text.
pub open spec fn helped(message: Seq<char>, help: Seq<char>, span: CodeSpan) -> ErrorView {
    ErrorView { message, help: Some(help), code_span: span }
}

/// The token at a position, if there is one.
pub open spec fn peek(ts: Seq<Token>, pos: nat) -> Option<Token> {
    if pos < ts.len() {
        Some(ts[pos as int])
    } else {
        None
    }
}

/// The kind of the token at a position.
pub open spec fn peek_kind(ts: Seq<Token>, pos: nat) -> Option<TokenKind> {
    match peek(ts, pos) {
        Some(t) => Some(t.token_type.kind_of()),
        None => None,
    }
}

/// Whether the token at a position is of a kind.
pub open spec fn next_is(ts: Seq<Token>, pos: nat, k: TokenKind) -> bool {
    peek_kind(ts, pos) == Some(k)
}

/// The position after taking one more token.
pub open spec fn adv(ts: Seq<Token>, pos: nat) -> nat {
    if pos < ts.len() + 2 {
        pos + 1
    } else {
        pos
    }
}

/// The token before the last one taken.
pub open spec fn prev_tok(ts: Seq<Token>, pos: nat) -> Option<Token> {
    if 2 <= pos && pos <= ts.len() + 1 {
        Some(ts[pos - 2])
    } else {
        None
    }
}

/// The last token taken.
pub open spec fn cur_tok(ts: Seq<Token>, pos: nat) -> Option<Token> {
    if 1 <= pos && pos <= ts.len() {
        Some(ts[pos - 1])
    } else {
        None
    }
}

/// The span of the token before the last one taken, or nowhere.
pub open spec fn prev_span(ts: Seq<Token>, pos: nat) -> CodeSpan {
    match prev_tok(ts, pos) {
        Some(t) => t.code_span,
        None => no_span(),
    }
}

/// The span of the last token taken, or nowhere.
pub open spec fn cur_span(ts: Seq<Token>, pos: nat) -> CodeSpan {
    match cur_tok(ts, pos) {
        Some(t) => t.code_span,
        None => no_span(),
    }
}

/// The span of the next token, or nowhere.
pub open spec fn peek_span(ts: Seq<Token>, pos: nat) -> CodeSpan {
    match peek(ts, pos) {
        Some(t) => t.code_span,
        None => no_span(),
    }
}

/// The span of the next token, else of the token before the last one
/// taken, else nowhere.
pub open spec fn near_span(ts: Seq<Token>, pos: nat) -> CodeSpan {
    match peek(ts, pos) {
        Some(t) => t.code_span,
        None => prev_span(ts, pos),
    }
}

/// The description of the next token, or of the end of the file.
pub open spec fn peek_description(ts: Seq<Token>, pos: nat) -> Seq<char> {
    match peek(ts, pos) {
        Some(t) => t.token_type.kind_of().description(),
        None => TokenKind::EndOfFile.description(),
    }
}

/// How many tokens are still to be taken.
pub open spec fn rem(ts: Seq<Token>, pos: nat) -> nat {
    if pos <= ts.len() + 2 {
        (ts.len() + 2 - pos) as nat
    } else {
        0
    }
}

/// Whether a step moved forward without running off the end.
pub open spec fn moved(ts: Seq<Token>, from: nat, to: nat) -> bool {
    from < to && to <= ts.len() + 2
}

/// The error for nesting past the limit.
pub open spec fn nesting_error(ts: Seq<Token>, pos: nat, what: Seq<char>) -> ErrorView {
    helped(
        "This "@ + what + " nests more than "@ + int_text(MAX_NESTING_DEPTH as int) + " levels deep, which is deeper than the compiler will read"@,
        "give the inner pieces names and use the names, so each piece stays shallow"@,
        near_span(ts, pos),
    )
}

/// Taking a token of an expected kind: its span, or the error.
pub open spec fn expect(ts: Seq<Token>, pos: nat, k: TokenKind) -> (Result<CodeSpan, ErrorView>, nat) {
    match peek(ts, pos) {
        Some(t) => if t.token_type.kind_of() == k {
            (Ok(t.code_span), pos + 1)
        } else {
            (Err(plain("Expected "@ + k.description() + " here, but found "@ + t.token_type.kind_of().description(), t.code_span)), pos + 1)
        },
        None => {
            let p = adv(ts, pos);
            (Err(ErrorView {
                message: "Expected "@ + k.description() + " but the file ended first"@,
                help: if k == TokenKind::BlockClose {
                    Some("a block opened earlier is never closed, so add the missing '}'"@)
                } else {
                    None
                },
                code_span: prev_span(ts, p),
            }), p)
        },
    }
}

/// What a one-letter name suggests it stands for.
pub open spec fn short_name_hint(name: Seq<char>) -> Seq<char> {
    if name == "x"@ || name == "y"@ || name == "z"@ {
        "coordinate"@
    } else if name == "i"@ || name == "j"@ || name == "k"@ {
        "index"@
    } else if name == "n"@ {
        "number"@
    } else {
        "variable"@
    }
}

/// Taking a name: the name, or the error.
pub open spec fn expect_identifier(ts: Seq<Token>, pos: nat) -> (Result<String, ErrorView>, nat) {
    let p = adv(ts, pos);
    match peek(ts, pos) {
        Some(t) => match t.token_type {
            TokenType::Identifier(name) => if vstd::utf8::encode_utf8(name@).len() < 2 {
                (Err(plain(
                    "Variable name too short. Use descriptive names.\n  Found: '"@ + name@ + "'\n  Suggestion: Use descriptive name like '"@
                        + name@ + "_value' or '"@ + name@ + "_"@ + short_name_hint(name@) + "'"@,
                    t.code_span,
                )), p)
            } else {
                (Ok(name), p)
            },
            _ => (Err(plain("Expected a name here, but found "@ + peek_description(ts, p), peek_span(ts, p))), p),
        },
        None => (Err(plain("Expected a name here, but found "@ + peek_description(ts, p), peek_span(ts, p))), p),
    }
}

/// Reading a type declaration token: the type, or the error.
pub open spec fn type_declaration(ts: Seq<Token>, pos: nat) -> (Result<NailDataTypeDescriptor, ErrorView>, nat) {
    let p = adv(ts, pos);
    match peek(ts, pos) {
        Some(Token { token_type: TokenType::TypeDeclaration(t), .. }) => (Ok(t), p),
        _ => (Err(plain(
            "Expected a type declaration here (like ':i' or ':s'), but found "@ + peek_description(ts, p),
            peek_span(ts, p),
        )), p),
    }
}

/// Whether a statement only declares something, the one kind an imported
/// file may hold at its top level.
pub open spec fn is_declaration(n: SNode) -> bool {
    match n {
        SNode::FunctionDeclaration { .. } | SNode::StructDeclaration { .. } | SNode::EnumDeclaration { .. } | SNode::ConstDeclaration { .. } => true,
        _ => false,
    }
}

/// A plain-language name for a kind of statement.
pub open spec fn statement_description(n: SNode) -> Seq<char> {
    match n {
        SNode::FunctionCall { name, .. } => "a call to '"@ + name@ + "'"@,
        SNode::IfStatement { .. } => "an if statement"@,
        SNode::Forever { .. } => "a forever block"@,
        SNode::ParallelBlock { .. } => "a parallel block"@,
        SNode::ConcurrentBlock { .. } => "a concurrent block"@,
        SNode::Block { .. } => "a block"@,
        SNode::MapExpression { .. } => "a map expression"@,
        SNode::FilterExpression { .. } => "a filter expression"@,
        SNode::ReduceExpression { .. } => "a reduce expression"@,
        SNode::ScanExpression { .. } => "a scan expression"@,
        SNode::EachExpression { .. } => "an each expression"@,
        SNode::FindExpression { .. } => "a find expression"@,
        SNode::AllExpression { .. } => "an all expression"@,
        SNode::AnyExpression { .. } => "an any expression"@,
        SNode::ReturnDeclaration { .. } => "a return statement"@,
        SNode::YieldDeclaration { .. } => "a yield statement"@,
        _ => "an executable statement"@,
    }
}

/// The error for a statement an imported file may not hold.
pub open spec fn sandbox_error(n: SNode) -> ErrorView {
    helped(
        "An imported file may only declare functions, structs, enums, and constants, but this file has "@ + statement_description(n) + " at the top level"@,
        "move the statement into a function so your program decides when it runs, or bring the file in with import_dangerous if you trust it"@,
        span_of(n),
    )
}

/// A struct declaration token read as a node.
pub open spec fn struct_declaration(ts: Seq<Token>, pos: nat) -> Step {
    let p = adv(ts, pos);
    match peek(ts, pos) {
        Some(Token { token_type: TokenType::StructDeclaration(data), code_span }) => (Ok(SNode::StructDeclaration {
            name: data.name,
            fields: Seq::new(data.fields@.len(), |i: int| SNode::StructDeclarationField {
                name: data.fields@[i].name,
                data_type: data.fields@[i].data_type,
                scope: GLOBAL_SCOPE,
            }),
            code_span,
            scope: GLOBAL_SCOPE,
        }), p),
        _ => (Err(plain("Struct declaration syntax is incorrect"@, prev_span(ts, p))), p),
    }
}

/// The variants of an enum declaration, from its tokens.
pub open spec fn enum_variants(name: String, vs: Seq<Token>) -> Result<Seq<SNode>, ErrorView>
    decreases vs.len(),
{
    if vs.len() == 0 {
        Ok(Seq::empty())
    } else {
        let t = vs[0];
        match t.token_type {
            TokenType::EnumVariant(v) => match enum_variants(name, vs.skip(1)) {
                Ok(rest) => Ok(seq![SNode::EnumVariant { name, variant: v.variant, code_span: t.code_span, scope: GLOBAL_SCOPE }] + rest),
                Err(e) => Err(e),
            },
            TokenType::BlockClose => Ok(Seq::empty()),
            _ => Err(plain(
                "Did not expect "@ + t.token_type.kind_of().description() + " inside an enum declaration; only variant names belong here"@,
                t.code_span,
            )),
        }
    }
}

/// An enum declaration token read as a node.
pub open spec fn enum_declaration(ts: Seq<Token>, pos: nat) -> Step {
    let p = adv(ts, pos);
    match peek(ts, pos) {
        Some(Token { token_type: TokenType::EnumDeclaration(data), code_span }) => match enum_variants(data.name, data.variants@) {
            Ok(variants) => (Ok(SNode::EnumDeclaration { name: data.name, variants, code_span, scope: GLOBAL_SCOPE }), p),
            Err(e) => (Err(e), p),
        },
        _ => (Err(plain("Expected enum declaration"@, prev_span(ts, p))), p),
    }
}

/// What the tokens of a function signature hold after the name: the
/// parameters and the return type, or the error.
pub open spec fn signature_rest(ts: Seq<Token>, pos: nat, sig: Seq<Token>) -> Result<(Seq<(String, NailDataTypeDescriptor)>, NailDataTypeDescriptor), ErrorView>
    decreases sig.len(),
{
    if sig.len() == 0 {
        Err(plain("Unexpected end of function declaration"@, prev_span(ts, pos)))
    } else {
        match sig[0].token_type {
            TokenType::Identifier(param) => {
                if sig.len() >= 2 && sig[1].token_type is TypeDeclaration {
                    let ty = sig[1].token_type->TypeDeclaration_0;
                    if sig.len() < 3 {
                        Err(plain("Unexpected end of function declaration"@, prev_span(ts, pos)))
                    } else {
                        match sig[2].token_type {
                            TokenType::Comma => match signature_rest(ts, pos, sig.skip(3)) {
                                Ok((params, rt)) => Ok((seq![(param, ty)] + params, rt)),
                                Err(e) => Err(e),
                            },
                            TokenType::FunctionReturnTypeDeclaration(rt) => Ok((seq![(param, ty)], rt)),
                            _ => Err(plain(
                                "Expected ',' or a return type declaration here, but found "@ + sig[2].token_type.kind_of().description(),
                                sig[2].code_span,
                            )),
                        }
                    }
                } else {
                    Err(plain("Expected type declaration for function parameter"@, prev_span(ts, pos)))
                }
            },
            TokenType::FunctionReturnTypeDeclaration(rt) => Ok((Seq::empty(), rt)),
            _ => Err(plain("Did not expect "@ + sig[0].token_type.kind_of().description() + " in a function declaration"@, sig[0].code_span)),
        }
    }
}

/// The head of a function declaration: its name, parameters, return type
/// and span, with the position after its signature token.
pub open spec fn function_head(ts: Seq<Token>, pos: nat) -> (Result<(String, Seq<(String, NailDataTypeDescriptor)>, NailDataTypeDescriptor, CodeSpan), ErrorView>, nat) {
    let p = adv(ts, pos);
    match peek(ts, pos) {
        Some(Token { token_type: TokenType::FunctionSignature(sig), code_span }) => {
            if sig@.len() > 0 && sig@[0].token_type is FunctionName {
                let name = sig@[0].token_type->FunctionName_0;
                if name@.len() == 0 {
                    (Err(plain("Function name cannot be empty"@, prev_span(ts, p))), p)
                } else {
                    match signature_rest(ts, p, sig@.skip(1)) {
                        Ok((params, rt)) => (Ok((name, params, rt, code_span)), p),
                        Err(e) => (Err(e), p),
                    }
                }
            } else {
                (Err(plain("Expected function name"@, prev_span(ts, p))), p)
            }
        },
        _ => (Err(plain("Expected function declaration"@, prev_span(ts, p))), p),
    }
}

/// A node that starts a chain of field accesses, extended by each `.name`.
pub open spec fn field_chain(ts: Seq<Token>, node: SNode, pos: nat) -> Step
    decreases rem(ts, pos),
{
    if next_is(ts, pos, TokenKind::Dot) {
        let p = pos + 1;
        match expect_identifier(ts, p) {
            (Ok(field_name), p2) => {
                let span = prev_span(ts, p2);
                let next = match node {
                    SNode::Identifier { name, .. } => SNode::StructFieldAccess { struct_name: name, field_name, code_span: span, scope: GLOBAL_SCOPE },
                    _ => SNode::NestedFieldAccess { object: Box::new(node), field_name, code_span: span, scope: GLOBAL_SCOPE },
                };
                if moved(ts, pos, p2) {
                    field_chain(ts, next, p2)
                } else {
                    (Ok(next), p2)
                }
            },
            (Err(e), p2) => (Err(e), p2),
        }
    } else {
        (Ok(node), pos)
    }
}

/// Whether a text starts with an upper-case letter.
pub open spec fn starts_upper(name: Seq<char>) -> bool {
    name.len() > 0 && crate::text::uppercase_char(name[0])
}

/// The type a short type name stands for.
pub open spec fn named_type(name: String) -> Option<NailDataTypeDescriptor> {
    if name@ == "i"@ {
        Some(NailDataTypeDescriptor::Int)
    } else if name@ == "f"@ {
        Some(NailDataTypeDescriptor::Float)
    } else if name@ == "s"@ {
        Some(NailDataTypeDescriptor::String)
    } else if name@ == "b"@ {
        Some(NailDataTypeDescriptor::Boolean)
    } else if name@ == "v"@ {
        Some(NailDataTypeDescriptor::Void)
    } else if name@ == "e"@ {
        Some(NailDataTypeDescriptor::Error)
    } else if starts_upper(name@) {
        Some(NailDataTypeDescriptor::Struct(name))
    } else {
        None
    }
}

/// The error for a type nested past its limit.
pub open spec fn type_depth_error(ts: Seq<Token>, pos: nat) -> ErrorView {
    helped(
        "This type nests more than "@ + int_text(MAX_TYPE_DEPTH as int) + " levels deep, which is deeper than any type the compiler will read"@,
        "a type this deep is almost always a typo: an array of arrays of numbers is 'a:a:i'"@,
        near_span(ts, pos),
    )
}

/// Reading a type annotation after a colon: `i`, `a:i`, `h<s,i>`, `Point`.
pub open spec fn type_annotation(ts: Seq<Token>, pos: nat, d: nat, td: nat) -> (Result<NailDataTypeDescriptor, ErrorView>, nat)
    decreases rem(ts, pos), MAX_NESTING_DEPTH - d, 1nat,
{
    if td >= MAX_TYPE_DEPTH {
        (Err(type_depth_error(ts, pos)), pos)
    } else if d >= MAX_NESTING_DEPTH {
        (Err(nesting_error(ts, pos, "type"@)), pos)
    } else {
        type_annotation_inner(ts, pos, d + 1, td + 1)
    }
}

/// The body of `type_annotation`, one level deeper.
pub open spec fn type_annotation_inner(ts: Seq<Token>, pos: nat, d: nat, td: nat) -> (Result<NailDataTypeDescriptor, ErrorView>, nat)
    decreases rem(ts, pos), MAX_NESTING_DEPTH - d, 0nat,
{
    match peek(ts, pos) {
        Some(t) => match t.token_type {
            TokenType::Identifier(written_type) => {
                let p = pos + 1;
                if written_type@ == "a"@ && next_is(ts, p, TokenKind::Colon) {
                    match type_annotation(ts, p + 1, d, td) {
                        (Ok(element), p2) => (Ok(NailDataTypeDescriptor::Array(Box::new(element))), p2),
                        (Err(e), p2) => (Err(e), p2),
                    }
                } else if written_type@ == "h"@ && peek(ts, p) matches Some(Token { token_type: TokenType::Operator(Operation::Lt), .. }) {
                    match type_annotation(ts, p + 1, d, td) {
                        (Ok(key), p2) => match expect(ts, p2, TokenKind::Comma) {
                            (Ok(_), p3) => if moved(ts, pos, p3) {
                                match type_annotation(ts, p3, d, td) {
                                    (Ok(value), p4) => {
                                        let p5 = adv(ts, p4);
                                        if peek(ts, p4) matches Some(Token { token_type: TokenType::Operator(Operation::Gt), .. }) {
                                            (Ok(NailDataTypeDescriptor::HashMap(Box::new(key), Box::new(value))), p5)
                                        } else {
                                            (Err(plain("Expected '>' to close hashmap type"@, peek_span(ts, p5))), p5)
                                        }
                                    },
                                    (Err(e), p4) => (Err(e), p4),
                                }
                            } else {
                                (Err(plain(Seq::empty(), no_span())), p3)
                            },
                            (Err(e), p3) => (Err(e), p3),
                        },
                        (Err(e), p2) => (Err(e), p2),
                    }
                } else {
                    match named_type(written_type) {
                        Some(ty) => (Ok(ty), p),
                        None => (Err(plain("Unknown type: "@ + written_type@, t.code_span)), p),
                    }
                }
            },
            _ => (Err(plain("Expected a type here (like i, f, s, or b), but found "@ + t.token_type.kind_of().description(), t.code_span)), pos),
        },
        None => (Err(plain("Expected type annotation"@, prev_span(ts, pos))), pos),
    }
}


/// What a parser step over a list yields.
pub type ListStep = (Result<Seq<SNode>, ErrorView>, nat);

/// The value of a step that failed to move forward; no step of the
/// grammar ever takes it.
pub open spec fn stuck(pos: nat) -> Step {
    (Err(plain(Seq::empty(), no_span())), pos)
}

/// The value of a list step that failed to move forward.
pub open spec fn stuck_list(pos: nat) -> ListStep {
    (Err(plain(Seq::empty(), no_span())), pos)
}

/// `n` in front of the nodes of a list step.
pub open spec fn cons(n: SNode, rest: ListStep) -> ListStep {
    match rest {
        (Ok(ns), p) => (Ok(seq![n] + ns), p),
        (Err(e), p) => (Err(e), p),
    }
}

/// A span from the start of one to the end of another.
pub open spec fn span_between(start: CodeSpan, end: CodeSpan) -> CodeSpan {
    CodeSpan { start_line: start.start_line, start_column: start.start_column, end_line: end.end_line, end_column: end.end_column }
}

/// The message for `f(` in expression position.
pub open spec fn lambda_error(span: CodeSpan) -> ErrorView {
    helped(
        "Nail has no lambdas or inline functions"@,
        "declare the function at the top level, f name(param:type):type { ... }, and pass it by name"@,
        span,
    )
}

/// The message for a block standing on its own.
pub open spec fn lone_block_error(span: CodeSpan) -> ErrorView {
    helped(
        "A block on its own does nothing in Nail"@,
        "a block belongs to an if branch, a function, a forever block or a collection operation. Statements that go together go on consecutive lines, and a name that is only needed for a moment is still declared where it is used"@,
        span,
    )
}

/// The message for a second assignment.
pub open spec fn reassignment_error(span: CodeSpan) -> ErrorView {
    helped(
        "Nail has no reassignment: a variable cannot be assigned a second time"@,
        "declare a binding with a type ('name:i = ...', redeclaring an earlier name in the same scope is allowed), accumulate across items with reduce, or write '==' if a comparison was meant"@,
        span,
    )
}

/// Reading one statement, one level deeper.
pub open spec fn statement(ts: Seq<Token>, pos: nat, d: nat, td: nat, sb: nat) -> Step
    decreases rem(ts, pos), MAX_NESTING_DEPTH - d, 1nat,
{
    if d >= MAX_NESTING_DEPTH {
        (Err(nesting_error(ts, pos, "statement"@)), pos)
    } else {
        statement_inner(ts, pos, d + 1, td, sb)
    }
}

/// Reading one statement.
pub open spec fn statement_inner(ts: Seq<Token>, pos: nat, d: nat, td: nat, sb: nat) -> Step
    decreases rem(ts, pos), MAX_NESTING_DEPTH - d, 12nat,
{
    match peek(ts, pos) {
        Some(t) => match t.token_type {
            TokenType::StructDeclaration(_) => struct_declaration(ts, pos),
            TokenType::EnumDeclaration(_) => enum_declaration(ts, pos),
            TokenType::FunctionSignature(_) => function_declaration(ts, pos, d, td, sb),
            TokenType::IfDeclaration => if_statement(ts, pos, d, td, sb, false),
            TokenType::MapDeclaration => binder_expression(ts, pos, d, td, sb, TokenKind::MapDeclaration),
            TokenType::FilterDeclaration => binder_expression(ts, pos, d, td, sb, TokenKind::FilterDeclaration),
            TokenType::ReduceDeclaration => fold_expression(ts, pos, d, td, sb, TokenKind::ReduceDeclaration),
            TokenType::ScanDeclaration => fold_expression(ts, pos, d, td, sb, TokenKind::ScanDeclaration),
            TokenType::EachDeclaration => binder_expression(ts, pos, d, td, sb, TokenKind::EachDeclaration),
            TokenType::FindDeclaration => binder_expression(ts, pos, d, td, sb, TokenKind::FindDeclaration),
            TokenType::AllDeclaration => binder_expression(ts, pos, d, td, sb, TokenKind::AllDeclaration),
            TokenType::AnyDeclaration => binder_expression(ts, pos, d, td, sb, TokenKind::AnyDeclaration),
            TokenType::ForeverKeyword => forever(ts, pos, d, td, sb),
            TokenType::ParallelStart => statement_group(ts, pos, d, td, sb, TokenKind::ParallelStart),
            TokenType::ConcurrentStart => statement_group(ts, pos, d, td, sb, TokenKind::ConcurrentStart),
            TokenType::Return => ending_statement(ts, pos, d, td, sb, TokenKind::Return),
            TokenType::Yield => ending_statement(ts, pos, d, td, sb, TokenKind::Yield),
            TokenType::BlockOpen => (Err(lone_block_error(t.code_span)), pos),
            TokenType::Identifier(_) => if next_is(ts, pos + 1, TokenKind::Colon) {
                const_declaration(ts, pos, d, td, sb)
            } else {
                expression_statement(ts, pos, d, td, sb)
            },
            _ => expression_statement(ts, pos, d, td, sb),
        },
        None => (Err(plain("No token was found to match with a statement."@, prev_span(ts, pos))), pos),
    }
}

/// An expression used as a statement, ended by `;`.
pub open spec fn expression_statement(ts: Seq<Token>, pos: nat, d: nat, td: nat, sb: nat) -> Step
    decreases rem(ts, pos), MAX_NESTING_DEPTH - d, 6nat,
{
    match expression(ts, pos, d, td, sb, 0) {
        (Ok(e), p) => match expect(ts, p, TokenKind::EndStatementOrExpression) {
            (Ok(_), p2) => (Ok(e), p2),
            (Err(err), p2) => (Err(err), p2),
        },
        (Err(err), p) => (Err(err), p),
    }
}

/// `name:type = value;`
pub open spec fn const_declaration(ts: Seq<Token>, pos: nat, d: nat, td: nat, sb: nat) -> Step
    decreases rem(ts, pos), MAX_NESTING_DEPTH - d, 6nat,
{
    match expect_identifier(ts, pos) {
        (Ok(name), p1) => match expect(ts, p1, TokenKind::Colon) {
            (Ok(_), p2) => match type_annotation(ts, p2, d, td) {
                (Ok(data_type), p3) => match expect(ts, p3, TokenKind::Assignment) {
                    (Ok(_), p4) => if moved(ts, pos, p4) {
                        match expression(ts, p4, d, td, sb, 0) {
                            (Ok(value), p5) => match expect(ts, p5, TokenKind::EndStatementOrExpression) {
                                (Ok(code_span), p6) => (Ok(SNode::ConstDeclaration {
                                    name,
                                    data_type,
                                    value: Box::new(value),
                                    sandboxed: sb > 0,
                                    code_span,
                                    scope: GLOBAL_SCOPE,
                                }), p6),
                                (Err(e), p6) => (Err(e), p6),
                            },
                            (Err(e), p5) => (Err(e), p5),
                        }
                    } else {
                        stuck(p4)
                    },
                    (Err(e), p4) => (Err(e), p4),
                },
                (Err(e), p3) => (Err(e), p3),
            },
            (Err(e), p2) => (Err(e), p2),
        },
        (Err(e), p1) => (Err(e), p1),
    }
}

/// `f name(params):type { ... }`
pub open spec fn function_declaration(ts: Seq<Token>, pos: nat, d: nat, td: nat, sb: nat) -> Step
    decreases rem(ts, pos), MAX_NESTING_DEPTH - d, 2nat,
{
    match function_head(ts, pos) {
        (Ok((name, params, data_type, code_span)), p) => if moved(ts, pos, p) {
            match block(ts, p, d, td, sb) {
                (Ok(body), p2) => (Ok(SNode::FunctionDeclaration {
                    name,
                    params,
                    data_type,
                    body: Box::new(body),
                    sandboxed: sb > 0,
                    code_span,
                    scope: GLOBAL_SCOPE,
                }), p2),
                (Err(e), p2) => (Err(e), p2),
            }
        } else {
            stuck(p)
        },
        (Err(e), p) => (Err(e), p),
    }
}

/// Statements up to a closing token, which is left for the caller.
pub open spec fn statements_until(ts: Seq<Token>, pos: nat, d: nat, td: nat, sb: nat, end: TokenKind) -> ListStep
    decreases rem(ts, pos), MAX_NESTING_DEPTH - d, 13nat,
{
    if peek(ts, pos) is Some && !next_is(ts, pos, end) {
        match statement(ts, pos, d, td, sb) {
            (Ok(st), p) => if moved(ts, pos, p) {
                cons(st, statements_until(ts, p, d, td, sb, end))
            } else {
                stuck_list(p)
            },
            (Err(e), p) => (Err(e), p),
        }
    } else {
        (Ok(Seq::empty()), pos)
    }
}

/// `{ statements }`
pub open spec fn block(ts: Seq<Token>, pos: nat, d: nat, td: nat, sb: nat) -> Step
    decreases rem(ts, pos), MAX_NESTING_DEPTH - d, 2nat,
{
    match expect(ts, pos, TokenKind::BlockOpen) {
        (Ok(_), p) => if moved(ts, pos, p) {
            match statements_until(ts, p, d, td, sb, TokenKind::BlockClose) {
                (Ok(statements), p2) => match expect(ts, p2, TokenKind::BlockClose) {
                    (Ok(_), p3) => (Ok(SNode::Block { statements, code_span: prev_span(ts, p3), scope: GLOBAL_SCOPE }), p3),
                    (Err(e), p3) => (Err(e), p3),
                },
                (Err(e), p2) => (Err(e), p2),
            }
        } else {
            stuck(p)
        },
        (Err(e), p) => (Err(e), p),
    }
}

/// The token that closes a parallel or concurrent block.
pub open spec fn group_end(start: TokenKind) -> TokenKind {
    if start == TokenKind::ParallelStart {
        TokenKind::ParallelEnd
    } else {
        TokenKind::ConcurrentEnd
    }
}

/// A parallel or concurrent block.
pub open spec fn statement_group(ts: Seq<Token>, pos: nat, d: nat, td: nat, sb: nat, start: TokenKind) -> Step
    decreases rem(ts, pos), MAX_NESTING_DEPTH - d, 6nat,
{
    match expect(ts, pos, start) {
        (Ok(_), p) => if moved(ts, pos, p) {
            match statements_until(ts, p, d, td, sb, group_end(start)) {
                (Ok(statements), p2) => match expect(ts, p2, group_end(start)) {
                    (Ok(_), p3) => (Ok(if start == TokenKind::ParallelStart {
                        SNode::ParallelBlock { statements, code_span: prev_span(ts, p3), scope: GLOBAL_SCOPE }
                    } else {
                        SNode::ConcurrentBlock { statements, code_span: prev_span(ts, p3), scope: GLOBAL_SCOPE }
                    }), p3),
                    (Err(e), p3) => (Err(e), p3),
                },
                (Err(e), p2) => (Err(e), p2),
            }
        } else {
            stuck(p)
        },
        (Err(e), p) => (Err(e), p),
    }
}

/// `r value;` or `y value;`
pub open spec fn ending_statement(ts: Seq<Token>, pos: nat, d: nat, td: nat, sb: nat, keyword: TokenKind) -> Step
    decreases rem(ts, pos), MAX_NESTING_DEPTH - d, 6nat,
{
    match expect(ts, pos, keyword) {
        (Ok(_), p) => if moved(ts, pos, p) {
            match expression(ts, p, d, td, sb, 0) {
                (Ok(value), p2) => match expect(ts, p2, TokenKind::EndStatementOrExpression) {
                    (Ok(code_span), p3) => (Ok(if keyword == TokenKind::Return {
                        SNode::ReturnDeclaration { statement: Box::new(value), code_span, scope: GLOBAL_SCOPE }
                    } else {
                        SNode::YieldDeclaration { statement: Box::new(value), code_span, scope: GLOBAL_SCOPE }
                    }), p3),
                    (Err(e), p3) => (Err(e), p3),
                },
                (Err(e), p2) => (Err(e), p2),
            }
        } else {
            stuck(p)
        },
        (Err(e), p) => (Err(e), p),
    }
}

/// `forever { ... }`
pub open spec fn forever(ts: Seq<Token>, pos: nat, d: nat, td: nat, sb: nat) -> Step
    decreases rem(ts, pos), MAX_NESTING_DEPTH - d, 6nat,
{
    match expect(ts, pos, TokenKind::ForeverKeyword) {
        (Ok(start), p) => if moved(ts, pos, p) {
            match block(ts, p, d, td, sb) {
                (Ok(body), p2) => (Ok(SNode::Forever {
                    body: Box::new(body),
                    code_span: span_between(start, span_of(body)),
                    scope: GLOBAL_SCOPE,
                }), p2),
                (Err(e), p2) => (Err(e), p2),
            }
        } else {
            stuck(p)
        },
        (Err(e), p) => (Err(e), p),
    }
}

/// An optional index name: a second name directly followed by `in`.
pub open spec fn index_name(ts: Seq<Token>, pos: nat) -> (Result<Option<String>, ErrorView>, nat) {
    if peek_kind(ts, pos) == Some(TokenKind::Identifier) && next_is(ts, pos + 1, TokenKind::InKeyword) {
        match expect_identifier(ts, pos) {
            (Ok(name), p) => (Ok(Some(name)), p),
            (Err(e), p) => (Err(e), p),
        }
    } else {
        (Ok(None), pos)
    }
}

/// The node a one-name collection operation builds.
pub open spec fn binder_node(keyword: TokenKind, iterator: String, index_iterator: Option<String>, iterable: SNode, body: SNode, code_span: CodeSpan) -> SNode {
    let iterable = Box::new(iterable);
    let body = Box::new(body);
    if keyword == TokenKind::MapDeclaration {
        SNode::MapExpression { iterator, index_iterator, iterable, body, code_span, scope: GLOBAL_SCOPE }
    } else if keyword == TokenKind::FilterDeclaration {
        SNode::FilterExpression { iterator, index_iterator, iterable, body, code_span, scope: GLOBAL_SCOPE }
    } else if keyword == TokenKind::EachDeclaration {
        SNode::EachExpression { iterator, index_iterator, iterable, body, code_span, scope: GLOBAL_SCOPE }
    } else if keyword == TokenKind::FindDeclaration {
        SNode::FindExpression { iterator, index_iterator, iterable, body, code_span, scope: GLOBAL_SCOPE }
    } else if keyword == TokenKind::AllDeclaration {
        SNode::AllExpression { iterator, index_iterator, iterable, body, code_span, scope: GLOBAL_SCOPE }
    } else {
        SNode::AnyExpression { iterator, index_iterator, iterable, body, code_span, scope: GLOBAL_SCOPE }
    }
}

/// `map item in items { ... }` and its kin `filter`, `each`, `find`, `all`
/// and `any`, with an optional index name after the item's.
pub open spec fn binder_expression(ts: Seq<Token>, pos: nat, d: nat, td: nat, sb: nat, keyword: TokenKind) -> Step
    decreases rem(ts, pos), MAX_NESTING_DEPTH - d, 6nat,
{
    match expect(ts, pos, keyword) {
        (Ok(start), p1) => match expect_identifier(ts, p1) {
            (Ok(iterator), p2) => match index_name(ts, p2) {
                (Ok(index_iterator), p3) => match expect(ts, p3, TokenKind::InKeyword) {
                    (Ok(_), p4) => if moved(ts, pos, p4) {
                        match expression(ts, p4, d, td, sb, 0) {
                            (Ok(iterable), p5) => if moved(ts, pos, p5) {
                                match block(ts, p5, d, td, sb) {
                                    (Ok(body), p6) => (Ok(binder_node(keyword, iterator, index_iterator, iterable, body, span_between(start, span_of(body)))), p6),
                                    (Err(e), p6) => (Err(e), p6),
                                }
                            } else {
                                stuck(p5)
                            },
                            (Err(e), p5) => (Err(e), p5),
                        }
                    } else {
                        stuck(p4)
                    },
                    (Err(e), p4) => (Err(e), p4),
                },
                (Err(e), p3) => (Err(e), p3),
            },
            (Err(e), p2) => (Err(e), p2),
        },
        (Err(e), p1) => (Err(e), p1),
    }
}

/// `reduce total item in items from start { ... }`, and `scan` written the
/// same way.
pub open spec fn fold_expression(ts: Seq<Token>, pos: nat, d: nat, td: nat, sb: nat, keyword: TokenKind) -> Step
    decreases rem(ts, pos), MAX_NESTING_DEPTH - d, 6nat,
{
    match expect(ts, pos, keyword) {
        (Ok(start), p1) => match expect_identifier(ts, p1) {
            (Ok(accumulator), p2) => match expect_identifier(ts, p2) {
                (Ok(iterator), p3) => match index_name(ts, p3) {
                    (Ok(index_iterator), p4) => match expect(ts, p4, TokenKind::InKeyword) {
                        (Ok(_), p5) => if moved(ts, pos, p5) {
                            match expression(ts, p5, d, td, sb, 0) {
                                (Ok(iterable), p6) => match expect(ts, p6, TokenKind::FromKeyword) {
                                    (Ok(_), p7) => if moved(ts, pos, p7) {
                                        match expression(ts, p7, d, td, sb, 0) {
                                            (Ok(initial_value), p8) => if moved(ts, pos, p8) {
                                                match block(ts, p8, d, td, sb) {
                                                    (Ok(body), p9) => {
                                                        let code_span = span_between(start, span_of(body));
                                                        let iterable = Box::new(iterable);
                                                        let initial_value = Box::new(initial_value);
                                                        let body = Box::new(body);
                                                        (Ok(if keyword == TokenKind::ReduceDeclaration {
                                                            SNode::ReduceExpression { accumulator, iterator, index_iterator, iterable, initial_value, body, code_span, scope: GLOBAL_SCOPE }
                                                        } else {
                                                            SNode::ScanExpression { accumulator, iterator, index_iterator, iterable, initial_value, body, code_span, scope: GLOBAL_SCOPE }
                                                        }), p9)
                                                    },
                                                    (Err(e), p9) => (Err(e), p9),
                                                }
                                            } else {
                                                stuck(p8)
                                            },
                                            (Err(e), p8) => (Err(e), p8),
                                        }
                                    } else {
                                        stuck(p7)
                                    },
                                    (Err(e), p7) => (Err(e), p7),
                                },
                                (Err(e), p6) => (Err(e), p6),
                            }
                        } else {
                            stuck(p5)
                        },
                        (Err(e), p5) => (Err(e), p5),
                    },
                    (Err(e), p4) => (Err(e), p4),
                },
                (Err(e), p3) => (Err(e), p3),
            },
            (Err(e), p2) => (Err(e), p2),
        },
        (Err(e), p1) => (Err(e), p1),
    }
}

/// What an if reads between its braces: the conditions with their
/// branches, and the else branch if there is one.
pub type BranchStep = (Result<(Seq<(SNode, SNode)>, Option<Box<SNode>>), ErrorView>, nat);

/// The branches of an if, `condition -> { ... }` separated by commas, with
/// an optional `else -> { ... }` last.
pub open spec fn if_branches(ts: Seq<Token>, pos: nat, d: nat, td: nat, sb: nat, open_span: CodeSpan) -> BranchStep
    decreases rem(ts, pos), MAX_NESTING_DEPTH - d, 7nat,
{
    match peek(ts, pos) {
        Some(t) => if t.token_type.kind_of() == TokenKind::ElseDeclaration {
            match expect(ts, pos + 1, TokenKind::ArrowAssignment) {
                (Ok(_), p) => if moved(ts, pos, p) {
                    match block(ts, p, d, td, sb) {
                        (Ok(b), p2) => (Ok((Seq::empty(), Some(Box::new(b)))), p2),
                        (Err(e), p2) => (Err(e), p2),
                    }
                } else {
                    (Err(plain(Seq::empty(), no_span())), p)
                },
                (Err(e), p) => (Err(e), p),
            }
        } else {
            match expression(ts, pos, d, td, sb, 0) {
                (Ok(condition), p) => match expect(ts, p, TokenKind::ArrowAssignment) {
                    (Ok(_), p2) => if moved(ts, pos, p2) {
                        match block(ts, p2, d, td, sb) {
                            (Ok(branch), p3) => if next_is(ts, p3, TokenKind::Comma) && moved(ts, pos, p3 + 1) {
                                match if_branches(ts, p3 + 1, d, td, sb, open_span) {
                                    (Ok((branches, else_branch)), p4) => (Ok((seq![(condition, branch)] + branches, else_branch)), p4),
                                    (Err(e), p4) => (Err(e), p4),
                                }
                            } else if next_is(ts, p3, TokenKind::Comma) {
                                (Err(plain(Seq::empty(), no_span())), p3)
                            } else {
                                (Ok((seq![(condition, branch)], None)), p3)
                            },
                            (Err(e), p3) => (Err(e), p3),
                        }
                    } else {
                        (Err(plain(Seq::empty(), no_span())), p2)
                    },
                    (Err(e), p2) => (Err(e), p2),
                },
                (Err(e), p) => (Err(e), p),
            }
        },
        None => (Err(plain("Unexpected end of if statement"@, open_span)), pos),
    }
}

/// `if { condition -> { ... }, else -> { ... } }`; as a statement it may be
/// followed by `;`.
pub open spec fn if_statement(ts: Seq<Token>, pos: nat, d: nat, td: nat, sb: nat, is_expression: bool) -> Step
    decreases rem(ts, pos), MAX_NESTING_DEPTH - d, 6nat,
{
    match expect(ts, pos, TokenKind::IfDeclaration) {
        (Ok(_), p1) => match expect(ts, p1, TokenKind::BlockOpen) {
            (Ok(open_span), p2) => if moved(ts, pos, p2) {
                match if_branches(ts, p2, d, td, sb, open_span) {
                    (Ok((condition_branches, else_branch)), p3) => match expect(ts, p3, TokenKind::BlockClose) {
                        (Ok(_), p4) => if !is_expression && next_is(ts, p4, TokenKind::EndStatementOrExpression) {
                            match expect(ts, p4, TokenKind::EndStatementOrExpression) {
                                (Ok(code_span), p5) => (Ok(SNode::IfStatement { condition_branches, else_branch, code_span, scope: GLOBAL_SCOPE }), p5),
                                (Err(e), p5) => (Err(e), p5),
                            }
                        } else {
                            (Ok(SNode::IfStatement { condition_branches, else_branch, code_span: prev_span(ts, p4), scope: GLOBAL_SCOPE }), p4)
                        },
                        (Err(e), p4) => (Err(e), p4),
                    },
                    (Err(e), p3) => (Err(e), p3),
                }
            } else {
                stuck(p2)
            },
            (Err(e), p2) => (Err(e), p2),
        },
        (Err(e), p1) => (Err(e), p1),
    }
}

/// An expression whose operators bind at least as tightly as `min`.
pub open spec fn expression(ts: Seq<Token>, pos: nat, d: nat, td: nat, sb: nat, min: u8) -> Step
    decreases rem(ts, pos), MAX_NESTING_DEPTH - d, 5nat,
{
    match primary(ts, pos, d, td, sb) {
        (Ok(left), p) => if moved(ts, pos, p) {
            operator_chain(ts, left, p, d, td, sb, min)
        } else {
            stuck(p)
        },
        (Err(e), p) => (Err(e), p),
    }
}

/// The binary operators that follow a left operand, each binding its right
/// operand at one more than its own strength.
pub open spec fn operator_chain(ts: Seq<Token>, left: SNode, pos: nat, d: nat, td: nat, sb: nat, min: u8) -> Step
    decreases rem(ts, pos), MAX_NESTING_DEPTH - d, 3nat,
{
    match peek(ts, pos) {
        Some(t) => match t.token_type {
            TokenType::Operator(op) => if op.binding() < min {
                (Ok(left), pos)
            } else if op.takes_one() {
                (Err(plain("The operator '"@ + op.written() + "' cannot be used between two values"@, t.code_span)), pos + 1)
            } else {
                match expression(ts, pos + 1, d, td, sb, (op.binding() + 1) as u8) {
                    (Ok(right), p) => if moved(ts, pos, p) {
                        operator_chain(ts, SNode::BinaryOperation {
                            left: Box::new(left),
                            operator: op,
                            right: Box::new(right),
                            code_span: t.code_span,
                            scope: GLOBAL_SCOPE,
                        }, p, d, td, sb, min)
                    } else {
                        stuck(p)
                    },
                    (Err(e), p) => (Err(e), p),
                }
            },
            TokenType::Assignment => (Err(reassignment_error(t.code_span)), pos),
            _ => (Ok(left), pos),
        },
        None => (Ok(left), pos),
    }
}

/// A primary expression, one level deeper.
pub open spec fn primary(ts: Seq<Token>, pos: nat, d: nat, td: nat, sb: nat) -> Step
    decreases rem(ts, pos), MAX_NESTING_DEPTH - d, 4nat,
{
    if d >= MAX_NESTING_DEPTH {
        (Err(nesting_error(ts, pos, "expression"@)), pos)
    } else {
        primary_inner(ts, pos, d + 1, td, sb)
    }
}

/// A node followed by its field accesses, when the step succeeded.
pub open spec fn with_fields(ts: Seq<Token>, step: Step) -> Step {
    match step {
        (Ok(n), p) => field_chain(ts, n, p),
        (Err(e), p) => (Err(e), p),
    }
}

/// A literal, a name, a call, a parenthesised expression, a unary
/// operation, or one of the expressions that start with a keyword.
pub open spec fn primary_inner(ts: Seq<Token>, pos: nat, d: nat, td: nat, sb: nat) -> Step
    decreases rem(ts, pos), MAX_NESTING_DEPTH - d, 11nat,
{
    match peek(ts, pos) {
        Some(t) => match t.token_type {
            TokenType::Operator(op) => if op.takes_one() || op == Operation::Sub {
                match primary(ts, pos + 1, d, td, sb) {
                    (Ok(operand), p) => (Ok(SNode::UnaryOperation {
                        operator: if op == Operation::Sub { Operation::Neg } else { op },
                        operand: Box::new(operand),
                        code_span: t.code_span,
                        scope: GLOBAL_SCOPE,
                    }), p),
                    (Err(e), p) => (Err(e), p),
                }
            } else {
                (Err(plain("Did not expect "@ + t.token_type.kind_of().description() + " here"@, t.code_span)), pos)
            },
            TokenType::Identifier(name) => {
                let p = pos + 1;
                if next_is(ts, p, TokenKind::ParenthesisOpen) {
                    if name@ == "f"@ {
                        (Err(lambda_error(t.code_span)), p)
                    } else {
                        with_fields(ts, function_call(ts, p, d, td, sb, name, t.code_span))
                    }
                } else if next_is(ts, p, TokenKind::BlockOpen) && starts_upper(name@) {
                    with_fields(ts, struct_instantiation(ts, p, d, td, sb, name, t.code_span))
                } else {
                    field_chain(ts, SNode::Identifier { name, code_span: t.code_span, scope: GLOBAL_SCOPE }, p)
                }
            },
            TokenType::Float(value) => field_chain(ts, SNode::NumberLiteral { value, data_type: NailDataTypeDescriptor::Float, code_span: t.code_span, scope: GLOBAL_SCOPE }, pos + 1),
            TokenType::Integer(value) => field_chain(ts, SNode::NumberLiteral { value, data_type: NailDataTypeDescriptor::Int, code_span: t.code_span, scope: GLOBAL_SCOPE }, pos + 1),
            TokenType::StringLiteral { value, .. } => field_chain(ts, SNode::StringLiteral { value, code_span: t.code_span, scope: GLOBAL_SCOPE }, pos + 1),
            TokenType::BooleanLiteral(value) => field_chain(ts, SNode::BooleanLiteral { value, code_span: t.code_span, scope: GLOBAL_SCOPE }, pos + 1),
            TokenType::ParenthesisOpen => match expression(ts, pos + 1, d, td, sb, 0) {
                (Ok(e), p) => match expect(ts, p, TokenKind::ParenthesisClose) {
                    (Ok(_), p2) => field_chain(ts, e, p2),
                    (Err(err), p2) => (Err(err), p2),
                },
                (Err(err), p) => (Err(err), p),
            },
            TokenType::EnumVariant(v) => field_chain(ts, SNode::EnumVariant { name: v.name, variant: v.variant, code_span: t.code_span, scope: GLOBAL_SCOPE }, pos + 1),
            TokenType::ArrayOpen => with_fields(ts, array_literal(ts, pos, d, td, sb)),
            TokenType::IfDeclaration => with_fields(ts, if_statement(ts, pos, d, td, sb, true)),
            TokenType::MapDeclaration => with_fields(ts, binder_expression(ts, pos, d, td, sb, TokenKind::MapDeclaration)),
            TokenType::FilterDeclaration => with_fields(ts, binder_expression(ts, pos, d, td, sb, TokenKind::FilterDeclaration)),
            TokenType::ReduceDeclaration => with_fields(ts, fold_expression(ts, pos, d, td, sb, TokenKind::ReduceDeclaration)),
            TokenType::ScanDeclaration => with_fields(ts, fold_expression(ts, pos, d, td, sb, TokenKind::ScanDeclaration)),
            TokenType::FindDeclaration => with_fields(ts, binder_expression(ts, pos, d, td, sb, TokenKind::FindDeclaration)),
            TokenType::AllDeclaration => with_fields(ts, binder_expression(ts, pos, d, td, sb, TokenKind::AllDeclaration)),
            TokenType::AnyDeclaration => with_fields(ts, binder_expression(ts, pos, d, td, sb, TokenKind::AnyDeclaration)),
            TokenType::FunctionSignature(_) => (Err(lambda_error(t.code_span)), pos),
            _ => (Err(plain("Did not expect "@ + t.token_type.kind_of().description() + " here"@, t.code_span)), pos),
        },
        None => (Err(plain("Unexpected end of file"@, prev_span(ts, pos))), pos),
    }
}

/// `name(arguments)`, from the `(` on.
pub open spec fn function_call(ts: Seq<Token>, pos: nat, d: nat, td: nat, sb: nat, name: String, name_span: CodeSpan) -> Step
    decreases rem(ts, pos), MAX_NESTING_DEPTH - d, 6nat,
{
    match expect(ts, pos, TokenKind::ParenthesisOpen) {
        (Ok(_), p) => if moved(ts, pos, p) {
            match call_arguments(ts, p, d, td, sb) {
                (Ok(args), p2) => match expect(ts, p2, TokenKind::ParenthesisClose) {
                    (Ok(closing), p3) => (Ok(SNode::FunctionCall { name, args, code_span: span_between(name_span, closing), scope: GLOBAL_SCOPE }), p3),
                    (Err(e), p3) => (Err(e), p3),
                },
                (Err(e), p2) => (Err(e), p2),
            }
        } else {
            stuck(p)
        },
        (Err(e), p) => (Err(e), p),
    }
}

/// The arguments of a call, separated by commas, up to the `)`.
pub open spec fn call_arguments(ts: Seq<Token>, pos: nat, d: nat, td: nat, sb: nat) -> ListStep
    decreases rem(ts, pos), MAX_NESTING_DEPTH - d, 7nat,
{
    if peek(ts, pos) is Some && !next_is(ts, pos, TokenKind::ParenthesisClose) {
        match expression(ts, pos, d, td, sb, 0) {
            (Ok(e), p) => if next_is(ts, p, TokenKind::Comma) {
                if moved(ts, pos, p + 1) {
                    cons(e, call_arguments(ts, p + 1, d, td, sb))
                } else {
                    stuck_list(p)
                }
            } else {
                (Ok(seq![e]), p)
            },
            (Err(err), p) => (Err(err), p),
        }
    } else {
        (Ok(Seq::empty()), pos)
    }
}

/// `[elements]`
pub open spec fn array_literal(ts: Seq<Token>, pos: nat, d: nat, td: nat, sb: nat) -> Step
    decreases rem(ts, pos), MAX_NESTING_DEPTH - d, 6nat,
{
    let start_span = cur_span(ts, pos);
    match expect(ts, pos, TokenKind::ArrayOpen) {
        (Ok(_), p) => if moved(ts, pos, p) {
            match array_elements(ts, p, d, td, sb) {
                (Ok(elements), p2) => match expect(ts, p2, TokenKind::ArrayClose) {
                    (Ok(_), p3) => (Ok(SNode::ArrayLiteral { elements, code_span: start_span, scope: GLOBAL_SCOPE }), p3),
                    (Err(e), p3) => (Err(e), p3),
                },
                (Err(e), p2) => (Err(e), p2),
            }
        } else {
            stuck(p)
        },
        (Err(e), p) => (Err(e), p),
    }
}

/// The elements of an array literal, separated by commas, up to the `]`.
pub open spec fn array_elements(ts: Seq<Token>, pos: nat, d: nat, td: nat, sb: nat) -> ListStep
    decreases rem(ts, pos), MAX_NESTING_DEPTH - d, 7nat,
{
    if !next_is(ts, pos, TokenKind::ArrayClose) {
        match expression(ts, pos, d, td, sb, 0) {
            (Ok(e), p) => if next_is(ts, p, TokenKind::Comma) {
                if moved(ts, pos, p + 1) {
                    cons(e, array_elements(ts, p + 1, d, td, sb))
                } else {
                    stuck_list(p)
                }
            } else if next_is(ts, p, TokenKind::ArrayClose) {
                (Ok(seq![e]), p)
            } else {
                (Err(plain("Expected ',' or ']' in array literal"@, cur_span(ts, p))), p)
            },
            (Err(err), p) => (Err(err), p),
        }
    } else {
        (Ok(Seq::empty()), pos)
    }
}

/// `Name { field = value, ... }`, from the `{` on.
pub open spec fn struct_instantiation(ts: Seq<Token>, pos: nat, d: nat, td: nat, sb: nat, name: String, start_span: CodeSpan) -> Step
    decreases rem(ts, pos), MAX_NESTING_DEPTH - d, 6nat,
{
    match expect(ts, pos, TokenKind::BlockOpen) {
        (Ok(_), p) => if moved(ts, pos, p) {
            match struct_fields(ts, p, d, td, sb) {
                (Ok(fields), p2) => (Ok(SNode::StructInstantiation { name, fields, code_span: start_span, scope: GLOBAL_SCOPE }), p2),
                (Err(e), p2) => (Err(e), p2),
            }
        } else {
            stuck(p)
        },
        (Err(e), p) => (Err(e), p),
    }
}

/// The fields of a struct instantiation, through the closing `}`.
pub open spec fn struct_fields(ts: Seq<Token>, pos: nat, d: nat, td: nat, sb: nat) -> ListStep
    decreases rem(ts, pos), MAX_NESTING_DEPTH - d, 7nat,
{
    if next_is(ts, pos, TokenKind::BlockClose) {
        (Ok(Seq::empty()), pos + 1)
    } else {
        match peek(ts, pos) {
            Some(t) => match t.token_type {
                TokenType::Identifier(field_name) => match expect(ts, pos + 1, TokenKind::Assignment) {
                    (Ok(_), p) => if moved(ts, pos, p) {
                        match expression(ts, p, d, td, sb, 0) {
                            (Ok(value), p2) => {
                                let field = SNode::StructInstantiationField {
                                    name: field_name,
                                    value: Box::new(value),
                                    code_span: span_of(value),
                                    scope: GLOBAL_SCOPE,
                                };
                                if next_is(ts, p2, TokenKind::Comma) {
                                    if moved(ts, pos, p2 + 1) {
                                        cons(field, struct_fields(ts, p2 + 1, d, td, sb))
                                    } else {
                                        stuck_list(p2)
                                    }
                                } else if next_is(ts, p2, TokenKind::BlockClose) {
                                    (Ok(seq![field]), p2 + 1)
                                } else {
                                    (Err(plain("Expected ',' or '}' in struct instantiation"@, prev_span(ts, p2))), p2)
                                }
                            },
                            (Err(e), p2) => (Err(e), p2),
                        }
                    } else {
                        stuck_list(p)
                    },
                    (Err(e), p) => (Err(e), p),
                },
                _ => (Err(plain("Expected field name in struct instantiation"@, t.code_span)), pos),
            },
            None => (Err(plain("Unexpected end of input in struct instantiation"@, prev_span(ts, pos))), pos),
        }
    }
}

/// The top-level statements read from a position to the end of the file,
/// `sb` being how many imported files the parser is inside. The markers
/// around an imported file only count; inside one, a statement that does not
/// declare something is refused.
pub open spec fn program_from(ts: Seq<Token>, pos: nat, sb: nat) -> Result<Seq<SNode>, ErrorView>
    decreases rem(ts, pos),
{
    match peek(ts, pos) {
        None => Ok(Seq::empty()),
        Some(t) => if t.token_type.kind_of() == TokenKind::SandboxStart {
            program_from(ts, pos + 1, sb + 1)
        } else if t.token_type.kind_of() == TokenKind::SandboxEnd {
            program_from(ts, pos + 1, if sb > 0 { (sb - 1) as nat } else { 0 })
        } else {
            match statement(ts, pos, 0, 0, sb) {
                (Ok(st), p) => if sb > 0 && !is_declaration(st) {
                    Err(sandbox_error(st))
                } else if moved(ts, pos, p) {
                    match program_from(ts, p, sb) {
                        Ok(rest) => Ok(seq![st] + rest),
                        Err(e) => Err(e),
                    }
                } else {
                    Err(plain(Seq::empty(), no_span()))
                },
                (Err(e), _) => Err(e),
            }
        }
    }
}

/// The error for a finished tree deeper than the limit.
pub open spec fn tree_depth_error(span: CodeSpan) -> ErrorView {
    helped(
        "This expression nests more than "@ + int_text(MAX_AST_DEPTH as int) + " levels deep, which is deeper than the compiler will read"@,
        "give the pieces names and combine the names, or build the values in an array and fold them with reduce"@,
        span,
    )
}

/// The program node for a list of top-level statements.
pub open spec fn program_node(statements: Seq<SNode>) -> SNode {
    SNode::Program { statements, code_span: no_span(), scope: GLOBAL_SCOPE }
}

/// What parsing a whole file gives: the program, unless reading it fails or
/// the finished tree is deeper than the limit.
pub open spec fn parse_result(ts: Seq<Token>) -> Result<SNode, ErrorView> {
    match program_from(ts, 0, 0) {
        Ok(statements) => match first_deep(program_node(statements), 0) {
            Some(span) => Err(tree_depth_error(span)),
            None => Ok(program_node(statements)),
        },
        Err(e) => Err(e),
    }
}


/// The node an integer token reads as.
pub open spec fn number_node(t: Token) -> SNode {
    match t.token_type {
        TokenType::Integer(value) => SNode::NumberLiteral {
            value,
            data_type: NailDataTypeDescriptor::Int,
            code_span: t.code_span,
            scope: GLOBAL_SCOPE,
        },
        _ => SNode::BooleanLiteral { value: false, code_span: t.code_span, scope: GLOBAL_SCOPE },
    }
}

/// Whether the token at a position ends an operand at strength `m`: there is
/// none, it ends the statement, or it is an operator binding looser than `m`.
pub open spec fn operand_ends(ts: Seq<Token>, p: nat, m: u8) -> bool {
    ||| p >= ts.len()
    ||| ts[p as int].token_type is EndStatementOrExpression
    ||| (ts[p as int].token_type matches TokenType::Operator(op) && op.binding() < m)
}

/// The binary operation of two nodes at an operator token.
pub open spec fn joined_by(left: SNode, t: Token, right: SNode) -> SNode {
    SNode::BinaryOperation {
        left: Box::new(left),
        operator: t.token_type->Operator_0,
        right: Box::new(right),
        code_span: t.code_span,
        scope: GLOBAL_SCOPE,
    }
}

proof fn lemma_number_operand(ts: Seq<Token>, p: nat, d: nat, td: nat, sb: nat, m: u8)
    requires
        p < ts.len(),
        d < MAX_NESTING_DEPTH,
        ts[p as int].token_type is Integer,
        operand_ends(ts, p + 1, m),
    ensures
        expression(ts, p, d, td, sb, m) == (Ok::<SNode, ErrorView>(number_node(ts[p as int])), p + 1),
{
    let node = number_node(ts[p as int]);
    assert(!next_is(ts, p + 1, TokenKind::Dot));
    assert(field_chain(ts, node, p + 1) == (Ok::<SNode, ErrorView>(node), p + 1));
    assert(primary_inner(ts, p, d + 1, td, sb) == (Ok::<SNode, ErrorView>(node), p + 1));
    assert(primary(ts, p, d, td, sb) == (Ok::<SNode, ErrorView>(node), p + 1));
    assert(moved(ts, p, p + 1));
    assert(operator_chain(ts, node, p + 1, d, td, sb, m) == (Ok::<SNode, ErrorView>(node), p + 1));
}

/// Operators of equal strength group to the left: `x op1 y op2 z` reads as
/// `(x op1 y) op2 z`, so `10 - 3 - 2` is `(10 - 3) - 2`. The right operand of
/// an operator is read binding strictly tighter than the operator itself.
pub proof fn equal_operators_group_to_the_left(ts: Seq<Token>, pos: nat, d: nat, td: nat, sb: nat, min: u8)
    requires
        pos + 5 <= ts.len(),
        d < MAX_NESTING_DEPTH,
        ts[pos as int].token_type is Integer,
        ts[pos as int + 2].token_type is Integer,
        ts[pos as int + 4].token_type is Integer,
        ts[pos as int + 1].token_type is Operator,
        ts[pos as int + 3].token_type is Operator,
        !ts[pos as int + 1].token_type->Operator_0.takes_one(),
        !ts[pos as int + 3].token_type->Operator_0.takes_one(),
        ts[pos as int + 1].token_type->Operator_0.binding() == ts[pos as int + 3].token_type->Operator_0.binding(),
        min <= ts[pos as int + 1].token_type->Operator_0.binding(),
        pos + 5 == ts.len() || ts[pos as int + 5].token_type is EndStatementOrExpression,
    ensures
        expression(ts, pos, d, td, sb, min) == (Ok::<SNode, ErrorView>(joined_by(
            joined_by(number_node(ts[pos as int]), ts[pos as int + 1], number_node(ts[pos as int + 2])),
            ts[pos as int + 3],
            number_node(ts[pos as int + 4]),
        )), pos + 5),
{
    let op1 = ts[pos as int + 1].token_type->Operator_0;
    let op2 = ts[pos as int + 3].token_type->Operator_0;
    let b = op1.binding();
    assert(b <= 7);
    let x = number_node(ts[pos as int]);
    let y = number_node(ts[pos as int + 2]);
    let z = number_node(ts[pos as int + 4]);
    assert(!next_is(ts, pos + 1, TokenKind::Dot));
    assert(field_chain(ts, x, pos + 1) == (Ok::<SNode, ErrorView>(x), pos + 1));
    assert(primary(ts, pos, d, td, sb) == (Ok::<SNode, ErrorView>(x), pos + 1));
    lemma_number_operand(ts, pos + 2, d, td, sb, (b + 1) as u8);
    lemma_number_operand(ts, pos + 4, d, td, sb, (b + 1) as u8);
    let first = joined_by(x, ts[pos as int + 1], y);
    let whole = joined_by(first, ts[pos as int + 3], z);
    assert(operator_chain(ts, whole, pos + 5, d, td, sb, min) == (Ok::<SNode, ErrorView>(whole), pos + 5));
    assert(operator_chain(ts, first, pos + 3, d, td, sb, min) == (Ok::<SNode, ErrorView>(whole), pos + 5));
    assert(operator_chain(ts, x, pos + 1, d, td, sb, min) == (Ok::<SNode, ErrorView>(whole), pos + 5));
}

} // verus!
