//! The parser: from the tokens of a file to its syntax tree.
//!
//! Every step here is proved to compute exactly what the grammar in
//! `grammar.rs` says it reads, error messages and spans included.

use vstd::prelude::*;
use vstd::string::{StringExecFns, StrSliceExecFns};
use crate::ast::{
    ASTNode, SNode, view_node, view_nodes, view_branches, span_of, kids, first_deep, first_deep_list, first_some, size, size_list, height,
    ref_views, lemma_view_nodes, lemma_view_nodes_push, lemma_view_branches_push, lemma_first_deep_kids, lemma_first_deep_height,
};
use crate::grammar::{expression_statement, 
    Step, adv, expect, expect_identifier as identifier_step, peek, peek_kind, next_is, prev_span, cur_span,
    peek_span, near_span, peek_description, rem, moved, short_name_hint, type_declaration, struct_declaration,
    enum_variants, enum_declaration, signature_rest, function_head, nesting_error, type_depth_error, type_annotation,
    type_annotation_inner, starts_upper, field_chain, index_name, ListStep, cons, span_between, BranchStep, statement,
    statement_inner, const_declaration, function_declaration, statements_until, block, statement_group, group_end,
    ending_statement, forever, binder_node, binder_expression, fold_expression, if_branches, if_statement, expression,
    operator_chain, primary, primary_inner, function_call, call_arguments, array_literal, array_elements,
    struct_instantiation, struct_fields, lambda_error, lone_block_error, reassignment_error, is_declaration,
    statement_description, sandbox_error, program_from, program_node, parse_result, MAX_NESTING_DEPTH, MAX_TYPE_DEPTH,
    MAX_AST_DEPTH,
};
use crate::syntax::{CodeError, CodeSpan, ErrorView, GLOBAL_SCOPE, NailDataTypeDescriptor, Operation, Token, TokenKind, TokenType, copy_type};
use crate::text::{int_to_text, is_uppercase, text_is};

verus! {

/// Where the parser stands in a file's tokens.
///
/// `position` counts the tokens taken so far; it stops two past the end,
/// where neither the last token taken nor the one before it is left.
pub struct ParserState {
    tokens: Vec<Token>,
    position: usize,
    sandbox_depth: usize,
    depth: usize,
    type_depth: usize,
}

impl ParserState {
    /// What every step keeps: the position stays within its range and the
    /// nesting counters within their limits.
    spec fn wf(&self) -> bool {
        &&& self.tokens@.len() + 2 <= usize::MAX
        &&& self.position <= self.tokens@.len() + 2
        &&& self.depth <= MAX_NESTING_DEPTH
        &&& self.type_depth <= MAX_TYPE_DEPTH
    }
}

/// A step leaves the tokens and counters as they were and moves forward.
spec fn kept(before: ParserState, after: ParserState) -> bool {
    &&& after.wf()
    &&& after.tokens@ == before.tokens@
    &&& after.sandbox_depth == before.sandbox_depth
    &&& after.depth == before.depth
    &&& after.type_depth == before.type_depth
    &&& before.position <= after.position
}

/// A parse result with the position after it, as the grammar writes it.
spec fn node_step(r: Result<ASTNode, CodeError>, pos: usize) -> Step {
    match r {
        Ok(n) => (Ok(view_node(n)), pos as nat),
        Err(e) => (Err(e.view()), pos as nat),
    }
}

/// Any other result with the position after it, as the grammar writes it.
spec fn value_step<T>(r: Result<T, CodeError>, pos: usize) -> (Result<T, ErrorView>, nat) {
    match r {
        Ok(v) => (Ok(v), pos as nat),
        Err(e) => (Err(e.view()), pos as nat),
    }
}

/// Takes one token.
fn advance(state: &mut ParserState)
    requires
        old(state).wf(),
    ensures
        kept(*old(state), *final(state)),
        final(state).position == adv(old(state).tokens@, old(state).position as nat),
{
    if state.position < state.tokens.len() + 2 {
        state.position = state.position + 1;
    }
}

/// The span of the token before the last one taken, or nowhere.
fn previous_span(state: &ParserState) -> (r: CodeSpan)
    requires
        state.wf(),
    ensures
        r == prev_span(state.tokens@, state.position as nat),
{
    if 2 <= state.position && state.position <= state.tokens.len() + 1 {
        state.tokens[state.position - 2].code_span
    } else {
        CodeSpan::default()
    }
}

/// The span of the last token taken, or nowhere.
fn current_span(state: &ParserState) -> (r: CodeSpan)
    requires
        state.wf(),
    ensures
        r == cur_span(state.tokens@, state.position as nat),
{
    if 1 <= state.position && state.position <= state.tokens.len() {
        state.tokens[state.position - 1].code_span
    } else {
        CodeSpan::default()
    }
}

/// The span of the next token, or nowhere.
fn next_span(state: &ParserState) -> (r: CodeSpan)
    requires
        state.wf(),
    ensures
        r == peek_span(state.tokens@, state.position as nat),
{
    if state.position < state.tokens.len() {
        state.tokens[state.position].code_span
    } else {
        CodeSpan::default()
    }
}

/// The span of the next token, else of the token before the last one taken.
fn nearby_span(state: &ParserState) -> (r: CodeSpan)
    requires
        state.wf(),
    ensures
        r == near_span(state.tokens@, state.position as nat),
{
    if state.position < state.tokens.len() {
        state.tokens[state.position].code_span
    } else {
        previous_span(state)
    }
}

/// The kind of the next token, if there is one.
fn next_kind(state: &ParserState) -> (r: Option<TokenKind>)
    requires
        state.wf(),
    ensures
        r == peek_kind(state.tokens@, state.position as nat),
{
    if state.position < state.tokens.len() {
        Some(state.tokens[state.position].token_type.kind())
    } else {
        None
    }
}

/// Whether the next token is of a kind.
fn next_is_kind(state: &ParserState, kind: TokenKind) -> (r: bool)
    requires
        state.wf(),
    ensures
        r == next_is(state.tokens@, state.position as nat, kind),
{
    match next_kind(state) {
        Some(k) => k == kind,
        None => false,
    }
}

/// A plain-language name for the next token, or for the end of the file.
fn describe_next(state: &ParserState) -> (r: String)
    requires
        state.wf(),
    ensures
        r@ == peek_description(state.tokens@, state.position as nat),
{
    match next_kind(state) {
        Some(k) => k.describe(),
        None => TokenKind::EndOfFile.describe(),
    }
}

/// An error with no help text.
fn plain_error(message: String, code_span: CodeSpan) -> (r: CodeError)
    ensures
        r.view() == crate::grammar::plain(message@, code_span),
{
    CodeError { message, help: None, code_span }
}

/// Takes the next token, which must be of the expected kind: its span, or
/// the error that names what was found instead.
fn expect_token(state: &mut ParserState, expected: TokenKind) -> (r: Result<CodeSpan, CodeError>)
    requires
        old(state).wf(),
    ensures
        kept(*old(state), *final(state)),
        value_step(r, final(state).position) == expect(old(state).tokens@, old(state).position as nat, expected),
{
    if state.position < state.tokens.len() {
        let found = state.tokens[state.position].token_type.kind();
        let span = state.tokens[state.position].code_span;
        state.position = state.position + 1;
        if found == expected {
            Ok(span)
        } else {
            let mut message = String::from_str("Expected ");
            message.append(expected.describe().as_str());
            message.append(" here, but found ");
            message.append(found.describe().as_str());
            Err(plain_error(message, span))
        }
    } else {
        advance(state);
        let help = if expected == TokenKind::BlockClose {
            Some(String::from_str("a block opened earlier is never closed, so add the missing '}'"))
        } else {
            None
        };
        let mut message = String::from_str("Expected ");
        message.append(expected.describe().as_str());
        message.append(" but the file ended first");
        Err(CodeError { message, help, code_span: previous_span(state) })
    }
}

/// What a one-letter name suggests it stands for.
fn short_name_suggestion(name: &String) -> (r: &'static str)
    ensures
        r@ == short_name_hint(name@),
{
    if text_is(name, "x") || text_is(name, "y") || text_is(name, "z") {
        "coordinate"
    } else if text_is(name, "i") || text_is(name, "j") || text_is(name, "k") {
        "index"
    } else if text_is(name, "n") {
        "number"
    } else {
        "variable"
    }
}

/// Takes a name: the name, or the error for a missing or too short one.
fn expect_identifier(state: &mut ParserState) -> (r: Result<String, CodeError>)
    requires
        old(state).wf(),
    ensures
        kept(*old(state), *final(state)),
        value_step(r, final(state).position) == identifier_step(old(state).tokens@, old(state).position as nat),
{
    let at = state.position;
    advance(state);
    if at < state.tokens.len() {
        match &state.tokens[at].token_type {
            TokenType::Identifier(name) => {
                if name.as_str().as_bytes().len() < 2 {
                    let mut message = String::from_str("Variable name too short. Use descriptive names.\n  Found: '");
                    message.append(name.as_str());
                    message.append("'\n  Suggestion: Use descriptive name like '");
                    message.append(name.as_str());
                    message.append("_value' or '");
                    message.append(name.as_str());
                    message.append("_");
                    message.append(short_name_suggestion(name));
                    message.append("'");
                    return Err(plain_error(message, state.tokens[at].code_span));
                } else {
                    return Ok(name.clone());
                }
            },
            _ => {},
        }
    }
    let mut message = String::from_str("Expected a name here, but found ");
    message.append(describe_next(state).as_str());
    Err(plain_error(message, next_span(state)))
}

/// Takes a type declaration token: the type, or the error.
fn parse_type_declaration(state: &mut ParserState) -> (r: Result<NailDataTypeDescriptor, CodeError>)
    requires
        old(state).wf(),
    ensures
        kept(*old(state), *final(state)),
        value_step(r, final(state).position) == type_declaration(old(state).tokens@, old(state).position as nat),
{
    let at = state.position;
    advance(state);
    if at < state.tokens.len() {
        match &state.tokens[at].token_type {
            TokenType::TypeDeclaration(data_type) => {
                return Ok(copy_type(data_type));
            },
            _ => {},
        }
    }
    let mut message = String::from_str("Expected a type declaration here (like ':i' or ':s'), but found ");
    message.append(describe_next(state).as_str());
    Err(plain_error(message, next_span(state)))
}

/// Reads a struct declaration token as a node.
fn parse_struct_declaration(state: &mut ParserState) -> (r: Result<ASTNode, CodeError>)
    requires
        old(state).wf(),
    ensures
        kept(*old(state), *final(state)),
        node_step(r, final(state).position) == struct_declaration(old(state).tokens@, old(state).position as nat),
        final(state).position == adv(old(state).tokens@, old(state).position as nat),
{
    let at = state.position;
    advance(state);
    if at < state.tokens.len() {
        match &state.tokens[at].token_type {
            TokenType::StructDeclaration(data) => {
                let mut fields: Vec<ASTNode> = Vec::new();
                let mut i: usize = 0;
                while i < data.fields.len()
                    invariant
                        i <= data.fields@.len(),
                        fields@.len() == i,
                        forall|j: int| 0 <= j < i ==> #[trigger] view_node(fields@[j]) == (SNode::StructDeclarationField {
                            name: data.fields@[j].name,
                            data_type: data.fields@[j].data_type,
                            scope: GLOBAL_SCOPE,
                        }),
                    decreases data.fields@.len() - i,
                {
                    fields.push(ASTNode::StructDeclarationField {
                        name: data.fields[i].name.clone(),
                        data_type: copy_type(&data.fields[i].data_type),
                        scope: GLOBAL_SCOPE,
                    });
                    i = i + 1;
                }
                proof {
                    lemma_view_nodes(fields@);
                    assert(view_nodes(fields@) =~= Seq::new(data.fields@.len(), |j: int| SNode::StructDeclarationField {
                        name: data.fields@[j].name,
                        data_type: data.fields@[j].data_type,
                        scope: GLOBAL_SCOPE,
                    }));
                }
                return Ok(ASTNode::StructDeclaration { name: data.name.clone(), fields, code_span: state.tokens[at].code_span, scope: GLOBAL_SCOPE });
            },
            _ => {},
        }
    }
    Err(plain_error(String::from_str("Struct declaration syntax is incorrect"), previous_span(state)))
}

/// `ns` in front of a list result.
spec fn prefixed(ns: Seq<SNode>, r: Result<Seq<SNode>, ErrorView>) -> Result<Seq<SNode>, ErrorView> {
    match r {
        Ok(rest) => Ok(ns + rest),
        Err(e) => Err(e),
    }
}

/// A list result, as the grammar writes it.
spec fn list_result(r: Result<Vec<ASTNode>, CodeError>) -> Result<Seq<SNode>, ErrorView> {
    match r {
        Ok(ns) => Ok(view_nodes(ns@)),
        Err(e) => Err(e.view()),
    }
}

/// The variant nodes of an enum declaration, from the tokens between its
/// braces.
fn enum_variant_nodes(name: &String, tokens: &Vec<Token>) -> (r: Result<Vec<ASTNode>, CodeError>)
    ensures
        list_result(r) == enum_variants(*name, tokens@),
{
    let ghost vs = tokens@;
    let mut variants: Vec<ASTNode> = Vec::new();
    let mut j: usize = 0;
    proof {
        assert(vs.skip(0) =~= vs);
        match enum_variants(*name, vs) {
            Ok(rest) => assert(Seq::<SNode>::empty() + rest =~= rest),
            Err(_) => {},
        }
    }
    while j < tokens.len()
        invariant_except_break
            j <= vs.len(),
            vs == tokens@,
            enum_variants(*name, vs) == prefixed(view_nodes(variants@), enum_variants(*name, vs.skip(j as int))),
        ensures
            enum_variants(*name, vs) == Ok::<Seq<SNode>, ErrorView>(view_nodes(variants@)),
        decreases vs.len() - j,
    {
        let token = &tokens[j];
        proof {
            assert(vs.skip(j as int)[0] == vs[j as int]);
            assert(vs.skip(j as int).skip(1) =~= vs.skip(j + 1));
        }
        match &token.token_type {
            TokenType::EnumVariant(variant) => {
                let ghost before = variants@;
                variants.push(ASTNode::EnumVariant {
                    name: name.clone(),
                    variant: variant.variant.clone(),
                    code_span: token.code_span,
                    scope: GLOBAL_SCOPE,
                });
                proof {
                    assert(variants@ == before.push(variants@.last()));
                    lemma_view_nodes_push(before, variants@.last());
                    match enum_variants(*name, vs.skip(j + 1)) {
                        Ok(rest) => assert(view_nodes(before) + (seq![view_node(variants@.last())] + rest) =~= view_nodes(variants@) + rest),
                        Err(_) => {},
                    }
                }
            },
            TokenType::BlockClose => {
                proof { assert(view_nodes(variants@) + Seq::<SNode>::empty() =~= view_nodes(variants@)); }
                break;
            },
            _ => {
                let mut message = String::from_str("Did not expect ");
                message.append(token.token_type.kind().describe().as_str());
                message.append(" inside an enum declaration; only variant names belong here");
                return Err(plain_error(message, token.code_span));
            },
        }
        j = j + 1;
    }
    proof {
        if j == vs.len() {
            assert(vs.skip(j as int) =~= Seq::<Token>::empty());
            assert(view_nodes(variants@) + Seq::<SNode>::empty() =~= view_nodes(variants@));
        }
    }
    Ok(variants)
}

/// Reads an enum declaration token as a node, with its variants.
fn parse_enum_declaration(state: &mut ParserState) -> (r: Result<ASTNode, CodeError>)
    requires
        old(state).wf(),
    ensures
        kept(*old(state), *final(state)),
        node_step(r, final(state).position) == enum_declaration(old(state).tokens@, old(state).position as nat),
        final(state).position == adv(old(state).tokens@, old(state).position as nat),
{
    let at = state.position;
    advance(state);
    if at < state.tokens.len() {
        match &state.tokens[at].token_type {
            TokenType::EnumDeclaration(data) => {
                return match enum_variant_nodes(&data.name, &data.variants) {
                    Ok(variants) => Ok(ASTNode::EnumDeclaration { name: data.name.clone(), variants, code_span: state.tokens[at].code_span, scope: GLOBAL_SCOPE }),
                    Err(e) => Err(e),
                };
            },
            _ => {},
        }
    }
    Err(plain_error(String::from_str("Expected enum declaration"), previous_span(state)))
}

/// `ps` in front of the parameters of a signature result.
spec fn with_params(
    ps: Seq<(String, NailDataTypeDescriptor)>,
    r: Result<(Seq<(String, NailDataTypeDescriptor)>, NailDataTypeDescriptor), ErrorView>,
) -> Result<(Seq<(String, NailDataTypeDescriptor)>, NailDataTypeDescriptor), ErrorView> {
    match r {
        Ok((params, rt)) => Ok((ps + params, rt)),
        Err(e) => Err(e),
    }
}

/// What a function head yields, as the grammar writes it.
spec fn head_step(
    r: Result<(String, Vec<(String, NailDataTypeDescriptor)>, NailDataTypeDescriptor, CodeSpan), CodeError>,
    pos: usize,
) -> (Result<(String, Seq<(String, NailDataTypeDescriptor)>, NailDataTypeDescriptor, CodeSpan), ErrorView>, nat) {
    match r {
        Ok((name, params, rt, span)) => (Ok((name, params@, rt, span)), pos as nat),
        Err(e) => (Err(e.view()), pos as nat),
    }
}

/// The error for a signature that stops before its return type.
fn signature_ended(state: &ParserState) -> (r: CodeError)
    requires
        state.wf(),
    ensures
        r.view() == crate::grammar::plain("Unexpected end of function declaration"@, prev_span(state.tokens@, state.position as nat)),
{
    plain_error(String::from_str("Unexpected end of function declaration"), previous_span(state))
}

/// Reads the signature token of a function declaration: its name, its
/// parameters with their types, its return type and its span.
fn parse_function_head(state: &mut ParserState) -> (r: Result<(String, Vec<(String, NailDataTypeDescriptor)>, NailDataTypeDescriptor, CodeSpan), CodeError>)
    requires
        old(state).wf(),
    ensures
        kept(*old(state), *final(state)),
        final(state).position == adv(old(state).tokens@, old(state).position as nat),
        head_step(r, final(state).position) == function_head(old(state).tokens@, old(state).position as nat),
{
    let at = state.position;
    advance(state);
    if at >= state.tokens.len() {
        return Err(plain_error(String::from_str("Expected function declaration"), previous_span(state)));
    }
    let code_span = state.tokens[at].code_span;
    let sig = match &state.tokens[at].token_type {
        TokenType::FunctionSignature(sig) => sig,
        _ => {
            return Err(plain_error(String::from_str("Expected function declaration"), previous_span(state)));
        },
    };
    let name = if sig.len() > 0 {
        match &sig[0].token_type {
            TokenType::FunctionName(name) => {
                if name.as_str().unicode_len() == 0 {
                    return Err(plain_error(String::from_str("Function name cannot be empty"), previous_span(state)));
                }
                name.clone()
            },
            _ => {
                return Err(plain_error(String::from_str("Expected function name"), previous_span(state)));
            },
        }
    } else {
        return Err(plain_error(String::from_str("Expected function name"), previous_span(state)));
    };
    let ghost ts = state.tokens@;
    let ghost p = state.position as nat;
    let ghost all = sig@.skip(1);
    let mut params: Vec<(String, NailDataTypeDescriptor)> = Vec::new();
    let mut j: usize = 1;
    proof {
        assert(sig@.skip(1).skip(0) =~= sig@.skip(1));
        match signature_rest(ts, p, all) {
            Ok((ps, rt)) => assert(Seq::<(String, NailDataTypeDescriptor)>::empty() + ps =~= ps),
            Err(_) => {},
        }
    }
    loop
        invariant
            1 <= j <= sig@.len(),
            kept(*old(state), *state),
            state.position == adv(old(state).tokens@, old(state).position as nat),
            ts == state.tokens@,
            p == state.position,
            all == sig@.skip(1),
            function_head(old(state).tokens@, old(state).position as nat) == (match signature_rest(ts, p, all) {
                Ok((ps, rt)) => (Ok((name, ps, rt, code_span)), p),
                Err(e) => (Err(e), p),
            }),
            signature_rest(ts, p, all) == with_params(params@, signature_rest(ts, p, sig@.skip(j as int))),
        decreases sig@.len() - j,
    {
        let ghost rest = sig@.skip(j as int);
        proof {
            if j + 3 <= sig@.len() {
                assert(rest.skip(3) =~= sig@.skip(j + 3));
            }
        }
        if j >= sig.len() {
            let e = signature_ended(state);
            proof {
                assert(rest.len() == 0);
                assert(signature_rest(ts, p, rest) == Err::<(Seq<(String, NailDataTypeDescriptor)>, NailDataTypeDescriptor), ErrorView>(e.view()));
            }
            return Err(e);
        }
        match &sig[j].token_type {
            TokenType::Identifier(param) => {
                let typed = if j + 1 < sig.len() {
                    match &sig[j + 1].token_type {
                        TokenType::TypeDeclaration(ty) => Some(copy_type(ty)),
                        _ => None,
                    }
                } else {
                    None
                };
                match typed {
                    Some(ty) => {
                        if j + 2 >= sig.len() {
                            return Err(signature_ended(state));
                        }
                        let ghost before = params@;
                        match &sig[j + 2].token_type {
                            TokenType::Comma => {
                                params.push((param.clone(), ty));
                                proof {
                                    match signature_rest(ts, p, sig@.skip(j + 3)) {
                                        Ok((ps, rt)) => assert(before + (seq![(*param, ty)] + ps) =~= params@ + ps),
                                        Err(_) => {},
                                    }
                                }
                                j = j + 3;
                            },
                            TokenType::FunctionReturnTypeDeclaration(rt) => {
                                params.push((param.clone(), ty));
                                proof { assert(before + seq![(*param, ty)] =~= params@); }
                                return Ok((name, params, copy_type(rt), code_span));
                            },
                            _ => {
                                let mut message = String::from_str("Expected ',' or a return type declaration here, but found ");
                                message.append(sig[j + 2].token_type.kind().describe().as_str());
                                return Err(plain_error(message, sig[j + 2].code_span));
                            },
                        }
                    },
                    None => {
                        return Err(plain_error(String::from_str("Expected type declaration for function parameter"), previous_span(state)));
                    },
                }
            },
            TokenType::FunctionReturnTypeDeclaration(rt) => {
                proof { assert(params@ + Seq::<(String, NailDataTypeDescriptor)>::empty() =~= params@); }
                return Ok((name, params, copy_type(rt), code_span));
            },
            _ => {
                let mut message = String::from_str("Did not expect ");
                message.append(sig[j].token_type.kind().describe().as_str());
                message.append(" in a function declaration");
                return Err(plain_error(message, sig[j].code_span));
            },
        }
    }
}

/// The error for nesting past the limit, for a kind of piece.
fn depth_error(state: &ParserState, what: &str) -> (r: CodeError)
    requires
        state.wf(),
    ensures
        r.view() == nesting_error(state.tokens@, state.position as nat, what@),
{
    let mut message = String::from_str("This ");
    message.append(what);
    message.append(" nests more than ");
    message.append(int_to_text(MAX_NESTING_DEPTH as i64).as_str());
    message.append(" levels deep, which is deeper than the compiler will read");
    CodeError {
        message,
        help: Some(String::from_str("give the inner pieces names and use the names, so each piece stays shallow")),
        code_span: nearby_span(state),
    }
}

/// Whether the next token is a given operator.
fn next_is_operator(state: &ParserState, op: Operation) -> (r: bool)
    requires
        state.wf(),
    ensures
        r == (peek(state.tokens@, state.position as nat) matches Some(Token { token_type: TokenType::Operator(o), .. }) && o == op),
{
    if state.position < state.tokens.len() {
        match &state.tokens[state.position].token_type {
            TokenType::Operator(o) => *o == op,
            _ => false,
        }
    } else {
        false
    }
}

/// Reads a type annotation after a colon, refusing types nested past their
/// limit.
fn parse_type_annotation(state: &mut ParserState) -> (r: Result<NailDataTypeDescriptor, CodeError>)
    requires
        old(state).wf(),
    ensures
        kept(*old(state), *final(state)),
        value_step(r, final(state).position) == type_annotation(
            old(state).tokens@,
            old(state).position as nat,
            old(state).depth as nat,
            old(state).type_depth as nat,
        ),
        r is Ok ==> moved(old(state).tokens@, old(state).position as nat, final(state).position as nat),
    decreases rem(old(state).tokens@, old(state).position as nat), MAX_NESTING_DEPTH - old(state).depth, 1nat,
{
    if state.type_depth >= MAX_TYPE_DEPTH {
        let mut message = String::from_str("This type nests more than ");
        message.append(int_to_text(MAX_TYPE_DEPTH as i64).as_str());
        message.append(" levels deep, which is deeper than any type the compiler will read");
        return Err(CodeError {
            message,
            help: Some(String::from_str("a type this deep is almost always a typo: an array of arrays of numbers is 'a:a:i'")),
            code_span: nearby_span(state),
        });
    }
    if state.depth >= MAX_NESTING_DEPTH {
        return Err(depth_error(state, "type"));
    }
    state.type_depth = state.type_depth + 1;
    state.depth = state.depth + 1;
    let result = parse_type_annotation_inner(state);
    state.type_depth = state.type_depth - 1;
    state.depth = state.depth - 1;
    result
}

/// The body of `parse_type_annotation`, one level deeper.
fn parse_type_annotation_inner(state: &mut ParserState) -> (r: Result<NailDataTypeDescriptor, CodeError>)
    requires
        old(state).wf(),
    ensures
        kept(*old(state), *final(state)),
        value_step(r, final(state).position) == type_annotation_inner(
            old(state).tokens@,
            old(state).position as nat,
            old(state).depth as nat,
            old(state).type_depth as nat,
        ),
        r is Ok ==> moved(old(state).tokens@, old(state).position as nat, final(state).position as nat),
    decreases rem(old(state).tokens@, old(state).position as nat), MAX_NESTING_DEPTH - old(state).depth, 0nat,
{
    if state.position >= state.tokens.len() {
        return Err(plain_error(String::from_str("Expected type annotation"), previous_span(state)));
    }
    let at = state.position;
    let token_span = state.tokens[at].code_span;
    let written = match &state.tokens[at].token_type {
        TokenType::Identifier(name) => name.clone(),
        _ => {
            let mut message = String::from_str("Expected a type here (like i, f, s, or b), but found ");
            message.append(state.tokens[at].token_type.kind().describe().as_str());
            return Err(plain_error(message, token_span));
        },
    };
    advance(state);
    if text_is(&written, "a") && next_is_kind(state, TokenKind::Colon) {
        advance(state);
        match parse_type_annotation(state) {
            Ok(element) => Ok(NailDataTypeDescriptor::Array(Box::new(element))),
            Err(e) => Err(e),
        }
    } else if text_is(&written, "h") && next_is_operator(state, Operation::Lt) {
        advance(state);
        let key = match parse_type_annotation(state) {
            Ok(key) => key,
            Err(e) => return Err(e),
        };
        match expect_token(state, TokenKind::Comma) {
            Ok(_) => {},
            Err(e) => return Err(e),
        }
        let value = match parse_type_annotation(state) {
            Ok(value) => value,
            Err(e) => return Err(e),
        };
        let closing = next_is_operator(state, Operation::Gt);
        advance(state);
        if closing {
            Ok(NailDataTypeDescriptor::HashMap(Box::new(key), Box::new(value)))
        } else {
            Err(plain_error(String::from_str("Expected '>' to close hashmap type"), next_span(state)))
        }
    } else if text_is(&written, "i") {
        Ok(NailDataTypeDescriptor::Int)
    } else if text_is(&written, "f") {
        Ok(NailDataTypeDescriptor::Float)
    } else if text_is(&written, "s") {
        Ok(NailDataTypeDescriptor::String)
    } else if text_is(&written, "b") {
        Ok(NailDataTypeDescriptor::Boolean)
    } else if text_is(&written, "v") {
        Ok(NailDataTypeDescriptor::Void)
    } else if text_is(&written, "e") {
        Ok(NailDataTypeDescriptor::Error)
    } else if starts_with_upper(&written) {
        Ok(NailDataTypeDescriptor::Struct(written))
    } else {
        let mut message = String::from_str("Unknown type: ");
        message.append(written.as_str());
        Err(plain_error(message, token_span))
    }
}

/// Whether a name starts with an upper-case letter.
fn starts_with_upper(name: &String) -> (r: bool)
    ensures
        r == starts_upper(name@),
{
    name.as_str().unicode_len() > 0 && is_uppercase(name.as_str().get_char(0))
}

/// `ns` in front of the nodes of a list step.
spec fn list_prefixed(ns: Seq<SNode>, step: ListStep) -> ListStep {
    match step {
        (Ok(rest), p) => (Ok(ns + rest), p),
        (Err(e), p) => (Err(e), p),
    }
}

/// A list of nodes with the position after it, as the grammar writes it.
spec fn list_step(r: Result<Vec<ASTNode>, CodeError>, pos: usize) -> ListStep {
    match r {
        Ok(ns) => (Ok(view_nodes(ns@)), pos as nat),
        Err(e) => (Err(e.view()), pos as nat),
    }
}

/// Prefixing nothing changes nothing.
proof fn lemma_list_prefixed_empty(step: ListStep)
    ensures
        list_prefixed(Seq::empty(), step) == step,
{
    match step {
        (Ok(rest), p) => assert(Seq::<SNode>::empty() + rest =~= rest),
        (Err(_), _) => {},
    }
}

/// Prefixing by a list, then one more node, is prefixing by the longer list.
proof fn lemma_list_prefixed_cons(ns: Seq<SNode>, n: SNode, rest: ListStep)
    ensures
        list_prefixed(ns, cons(n, rest)) == list_prefixed(ns.push(n), rest),
{
    match rest {
        (Ok(r), p) => assert(ns + (seq![n] + r) =~= ns.push(n) + r),
        (Err(_), _) => {},
    }
}

/// A span from the start of one span to the end of another.
fn join_spans(start: CodeSpan, end: CodeSpan) -> (r: CodeSpan)
    ensures
        r == span_between(start, end),
{
    CodeSpan { start_line: start.start_line, start_column: start.start_column, end_line: end.end_line, end_column: end.end_column }
}

/// Extends a node by the field accesses that follow it, `.name` by `.name`.
fn parse_field_access_chain(state: &mut ParserState, start_node: ASTNode) -> (r: Result<ASTNode, CodeError>)
    requires
        old(state).wf(),
    ensures
        kept(*old(state), *final(state)),
        node_step(r, final(state).position) == field_chain(old(state).tokens@, view_node(start_node), old(state).position as nat),
{
    let ghost ts = state.tokens@;
    let ghost start = state.position as nat;
    let ghost first = view_node(start_node);
    let mut node = start_node;
    loop
        invariant
            kept(*old(state), *state),
            ts == state.tokens@,
            ts == old(state).tokens@,
            start == old(state).position,
            first == view_node(start_node),
            field_chain(ts, first, start) == field_chain(ts, view_node(node), state.position as nat),
        decreases rem(ts, state.position as nat),
    {
        if !next_is_kind(state, TokenKind::Dot) {
            return Ok(node);
        }
        let ghost here = state.position as nat;
        advance(state);
        let field_name = match expect_identifier(state) {
            Ok(name) => name,
            Err(e) => return Err(e),
        };
        let code_span = previous_span(state);
        node = match node {
            ASTNode::Identifier { name, .. } => ASTNode::StructFieldAccess { struct_name: name, field_name, code_span, scope: GLOBAL_SCOPE },
            other => ASTNode::NestedFieldAccess { object: Box::new(other), field_name, code_span, scope: GLOBAL_SCOPE },
        };
        proof { assert(moved(ts, here, state.position as nat)); }
    }
}

/// Reads an optional index name: a second name directly followed by `in`.
fn parse_index_name(state: &mut ParserState) -> (r: Result<Option<String>, CodeError>)
    requires
        old(state).wf(),
    ensures
        kept(*old(state), *final(state)),
        value_step(r, final(state).position) == index_name(old(state).tokens@, old(state).position as nat),
{
    let here = state.position;
    let followed_by_in = here < state.tokens.len() && here + 1 < state.tokens.len() && state.tokens[here + 1].token_type.kind() == TokenKind::InKeyword;
    if next_kind(state) == Some(TokenKind::Identifier) && followed_by_in {
        match expect_identifier(state) {
            Ok(name) => Ok(Some(name)),
            Err(e) => Err(e),
        }
    } else {
        Ok(None)
    }
}

/// The error for a piece a parser step did not expect.
fn unexpected(found: TokenKind, code_span: CodeSpan) -> (r: CodeError)
    ensures
        r.view() == crate::grammar::plain("Did not expect "@ + found.description() + " here"@, code_span),
{
    let mut message = String::from_str("Did not expect ");
    message.append(found.describe().as_str());
    message.append(" here");
    plain_error(message, code_span)
}

/// The error for an attempt at an inline function.
fn no_lambdas(code_span: CodeSpan) -> (r: CodeError)
    ensures
        r.view() == lambda_error(code_span),
{
    CodeError {
        message: String::from_str("Nail has no lambdas or inline functions"),
        help: Some(String::from_str("declare the function at the top level, f name(param:type):type { ... }, and pass it by name")),
        code_span,
    }
}

/// Reads one statement, refusing statements nested past the limit.
fn parse_statement(state: &mut ParserState) -> (r: Result<ASTNode, CodeError>)
    requires
        old(state).wf(),
    ensures
        kept(*old(state), *final(state)),
        node_step(r, final(state).position) == statement(old(state).tokens@, old(state).position as nat, old(state).depth as nat, old(state).type_depth as nat, old(state).sandbox_depth as nat),
        r is Ok ==> moved(old(state).tokens@, old(state).position as nat, final(state).position as nat),
    decreases rem(old(state).tokens@, old(state).position as nat), MAX_NESTING_DEPTH - old(state).depth, 1nat,
{
    if state.depth >= MAX_NESTING_DEPTH {
        return Err(depth_error(state, "statement"));
    }
    state.depth = state.depth + 1;
    let result = parse_statement_inner(state);
    state.depth = state.depth - 1;
    result
}

/// Reads one statement, by the token it starts with.
#[verifier::rlimit(100)]
#[verifier::spinoff_prover]
fn parse_statement_inner(state: &mut ParserState) -> (r: Result<ASTNode, CodeError>)
    requires
        old(state).wf(),
    ensures
        kept(*old(state), *final(state)),
        node_step(r, final(state).position) == statement_inner(old(state).tokens@, old(state).position as nat, old(state).depth as nat, old(state).type_depth as nat, old(state).sandbox_depth as nat),
        r is Ok ==> moved(old(state).tokens@, old(state).position as nat, final(state).position as nat),
    decreases rem(old(state).tokens@, old(state).position as nat), MAX_NESTING_DEPTH - old(state).depth, 10nat,
{
    if state.position >= state.tokens.len() {
        return Err(plain_error(String::from_str("No token was found to match with a statement."), previous_span(state)));
    }
    let at = state.position;
    let named_constant = at + 1 < state.tokens.len() && state.tokens[at + 1].token_type.kind() == TokenKind::Colon;
    match &state.tokens[at].token_type {
        TokenType::StructDeclaration(_) => parse_struct_declaration(state),
        TokenType::EnumDeclaration(_) => parse_enum_declaration(state),
        TokenType::FunctionSignature(_) => parse_function_declaration(state),
        TokenType::IfDeclaration => parse_if_statement_expr(state, false),
        TokenType::MapDeclaration => parse_binder_expression(state, TokenKind::MapDeclaration),
        TokenType::FilterDeclaration => parse_binder_expression(state, TokenKind::FilterDeclaration),
        TokenType::EachDeclaration => parse_binder_expression(state, TokenKind::EachDeclaration),
        TokenType::FindDeclaration => parse_binder_expression(state, TokenKind::FindDeclaration),
        TokenType::AllDeclaration => parse_binder_expression(state, TokenKind::AllDeclaration),
        TokenType::AnyDeclaration => parse_binder_expression(state, TokenKind::AnyDeclaration),
        TokenType::ReduceDeclaration => parse_fold_expression(state, TokenKind::ReduceDeclaration),
        TokenType::ScanDeclaration => parse_fold_expression(state, TokenKind::ScanDeclaration),
        TokenType::ForeverKeyword => parse_forever(state),
        TokenType::ParallelStart => parse_statement_group(state, TokenKind::ParallelStart),
        TokenType::ConcurrentStart => parse_statement_group(state, TokenKind::ConcurrentStart),
        TokenType::Return => parse_ending_statement(state, TokenKind::Return),
        TokenType::Yield => parse_ending_statement(state, TokenKind::Yield),
        TokenType::BlockOpen => {
            let code_span = state.tokens[at].code_span;
            Err(CodeError {
                message: String::from_str("A block on its own does nothing in Nail"),
                help: Some(String::from_str("a block belongs to an if branch, a function, a forever block or a collection operation. Statements that go together go on consecutive lines, and a name that is only needed for a moment is still declared where it is used")),
                code_span,
            })
        },
        TokenType::Identifier(_) => {
            // A name followed by a colon declares a constant.
            if named_constant {
                parse_const_declaration(state)
            } else {
                parse_expression_statement(state)
            }
        },
        _ => parse_expression_statement(state),
    }
}

/// An expression used as a statement, ended by `;`.
fn parse_expression_statement(state: &mut ParserState) -> (r: Result<ASTNode, CodeError>)
    requires
        old(state).wf(),
    ensures
        kept(*old(state), *final(state)),
        node_step(r, final(state).position) == expression_statement(old(state).tokens@, old(state).position as nat, old(state).depth as nat, old(state).type_depth as nat, old(state).sandbox_depth as nat),
        r is Ok ==> moved(old(state).tokens@, old(state).position as nat, final(state).position as nat),
    decreases rem(old(state).tokens@, old(state).position as nat), MAX_NESTING_DEPTH - old(state).depth, 6nat,
{
    let expr = match parse_expression(state, 0) {
        Ok(expr) => expr,
        Err(e) => return Err(e),
    };
    match expect_token(state, TokenKind::EndStatementOrExpression) {
        Ok(_) => Ok(expr),
        Err(e) => Err(e),
    }
}

/// `name:type = value;`
fn parse_const_declaration(state: &mut ParserState) -> (r: Result<ASTNode, CodeError>)
    requires
        old(state).wf(),
    ensures
        kept(*old(state), *final(state)),
        node_step(r, final(state).position) == const_declaration(old(state).tokens@, old(state).position as nat, old(state).depth as nat, old(state).type_depth as nat, old(state).sandbox_depth as nat),
        r is Ok ==> moved(old(state).tokens@, old(state).position as nat, final(state).position as nat),
    decreases rem(old(state).tokens@, old(state).position as nat), MAX_NESTING_DEPTH - old(state).depth, 2nat,
{
    let name = match expect_identifier(state) {
        Ok(name) => name,
        Err(e) => return Err(e),
    };
    match expect_token(state, TokenKind::Colon) {
        Ok(_) => {},
        Err(e) => return Err(e),
    }
    let data_type = match parse_type_annotation(state) {
        Ok(t) => t,
        Err(e) => return Err(e),
    };
    match expect_token(state, TokenKind::Assignment) {
        Ok(_) => {},
        Err(e) => return Err(e),
    }
    let value = match parse_expression(state, 0) {
        Ok(v) => v,
        Err(e) => return Err(e),
    };
    let code_span = match expect_token(state, TokenKind::EndStatementOrExpression) {
        Ok(s) => s,
        Err(e) => return Err(e),
    };
    Ok(ASTNode::ConstDeclaration { name, data_type, value: Box::new(value), sandboxed: state.sandbox_depth > 0, code_span, scope: GLOBAL_SCOPE })
}

/// `f name(params):type { ... }`
fn parse_function_declaration(state: &mut ParserState) -> (r: Result<ASTNode, CodeError>)
    requires
        old(state).wf(),
    ensures
        kept(*old(state), *final(state)),
        node_step(r, final(state).position) == function_declaration(old(state).tokens@, old(state).position as nat, old(state).depth as nat, old(state).type_depth as nat, old(state).sandbox_depth as nat),
        r is Ok ==> moved(old(state).tokens@, old(state).position as nat, final(state).position as nat),
    decreases rem(old(state).tokens@, old(state).position as nat), MAX_NESTING_DEPTH - old(state).depth, 2nat,
{
    let (name, params, data_type, code_span) = match parse_function_head(state) {
        Ok(head) => head,
        Err(e) => return Err(e),
    };
    let body = match parse_block(state) {
        Ok(b) => b,
        Err(e) => return Err(e),
    };
    Ok(ASTNode::FunctionDeclaration { name, params, data_type, body: Box::new(body), sandboxed: state.sandbox_depth > 0, code_span, scope: GLOBAL_SCOPE })
}

/// Reads statements up to a closing token, which is left for the caller.
fn parse_statements_until(state: &mut ParserState, end: TokenKind) -> (r: Result<Vec<ASTNode>, CodeError>)
    requires
        old(state).wf(),
    ensures
        kept(*old(state), *final(state)),
        list_step(r, final(state).position) == statements_until(old(state).tokens@, old(state).position as nat, old(state).depth as nat, old(state).type_depth as nat, old(state).sandbox_depth as nat, end),
    decreases rem(old(state).tokens@, old(state).position as nat), MAX_NESTING_DEPTH - old(state).depth, 2nat,
{
    let ghost ts = state.tokens@;
    let ghost start = state.position as nat;
    let ghost d = state.depth as nat;
    let ghost td = state.type_depth as nat;
    let ghost sb = state.sandbox_depth as nat;
    let mut statements: Vec<ASTNode> = Vec::new();
    proof { lemma_list_prefixed_empty(statements_until(ts, start, d, td, sb, end)); }
    loop
        invariant
            kept(*old(state), *state),
            ts == old(state).tokens@,
            start == old(state).position,
            d == old(state).depth,
            td == old(state).type_depth,
            sb == old(state).sandbox_depth,
            statements_until(ts, start, d, td, sb, end) == list_prefixed(view_nodes(statements@), statements_until(ts, state.position as nat, d, td, sb, end)),
        decreases rem(ts, state.position as nat),
    {
        if state.position >= state.tokens.len() || next_is_kind(state, end) {
            proof { assert(view_nodes(statements@) + Seq::<SNode>::empty() =~= view_nodes(statements@)); }
            return Ok(statements);
        }
        let ghost here = state.position as nat;
        let st = match parse_statement(state) {
            Ok(st) => st,
            Err(e) => return Err(e),
        };
        let ghost before = statements@;
        statements.push(st);
        proof {
            lemma_view_nodes_push(before, st);
            lemma_list_prefixed_cons(view_nodes(before), view_node(st), statements_until(ts, state.position as nat, d, td, sb, end));
        }
    }
}

/// `{ statements }`
fn parse_block(state: &mut ParserState) -> (r: Result<ASTNode, CodeError>)
    requires
        old(state).wf(),
    ensures
        kept(*old(state), *final(state)),
        node_step(r, final(state).position) == block(old(state).tokens@, old(state).position as nat, old(state).depth as nat, old(state).type_depth as nat, old(state).sandbox_depth as nat),
        r is Ok ==> moved(old(state).tokens@, old(state).position as nat, final(state).position as nat),
    decreases rem(old(state).tokens@, old(state).position as nat), MAX_NESTING_DEPTH - old(state).depth, 2nat,
{
    match expect_token(state, TokenKind::BlockOpen) {
        Ok(_) => {},
        Err(e) => return Err(e),
    }
    let statements = match parse_statements_until(state, TokenKind::BlockClose) {
        Ok(s) => s,
        Err(e) => return Err(e),
    };
    match expect_token(state, TokenKind::BlockClose) {
        Ok(_) => {},
        Err(e) => return Err(e),
    }
    Ok(ASTNode::Block { statements, code_span: previous_span(state), scope: GLOBAL_SCOPE })
}

/// A parallel or concurrent block, from its opening token to its closing one.
fn parse_statement_group(state: &mut ParserState, start: TokenKind) -> (r: Result<ASTNode, CodeError>)
    requires
        old(state).wf(),
    ensures
        kept(*old(state), *final(state)),
        node_step(r, final(state).position) == statement_group(old(state).tokens@, old(state).position as nat, old(state).depth as nat, old(state).type_depth as nat, old(state).sandbox_depth as nat, start),
        r is Ok ==> moved(old(state).tokens@, old(state).position as nat, final(state).position as nat),
    decreases rem(old(state).tokens@, old(state).position as nat), MAX_NESTING_DEPTH - old(state).depth, 2nat,
{
    let end = if start == TokenKind::ParallelStart { TokenKind::ParallelEnd } else { TokenKind::ConcurrentEnd };
    match expect_token(state, start) {
        Ok(_) => {},
        Err(e) => return Err(e),
    }
    let statements = match parse_statements_until(state, end) {
        Ok(s) => s,
        Err(e) => return Err(e),
    };
    match expect_token(state, end) {
        Ok(_) => {},
        Err(e) => return Err(e),
    }
    let code_span = previous_span(state);
    if start == TokenKind::ParallelStart {
        Ok(ASTNode::ParallelBlock { statements, code_span, scope: GLOBAL_SCOPE })
    } else {
        Ok(ASTNode::ConcurrentBlock { statements, code_span, scope: GLOBAL_SCOPE })
    }
}

/// `r value;` or `y value;`
fn parse_ending_statement(state: &mut ParserState, keyword: TokenKind) -> (r: Result<ASTNode, CodeError>)
    requires
        old(state).wf(),
    ensures
        kept(*old(state), *final(state)),
        node_step(r, final(state).position) == ending_statement(old(state).tokens@, old(state).position as nat, old(state).depth as nat, old(state).type_depth as nat, old(state).sandbox_depth as nat, keyword),
        r is Ok ==> moved(old(state).tokens@, old(state).position as nat, final(state).position as nat),
    decreases rem(old(state).tokens@, old(state).position as nat), MAX_NESTING_DEPTH - old(state).depth, 2nat,
{
    match expect_token(state, keyword) {
        Ok(_) => {},
        Err(e) => return Err(e),
    }
    let value = match parse_expression(state, 0) {
        Ok(v) => v,
        Err(e) => return Err(e),
    };
    let code_span = match expect_token(state, TokenKind::EndStatementOrExpression) {
        Ok(s) => s,
        Err(e) => return Err(e),
    };
    Ok(ending_node(keyword, value, code_span))
}

/// The node a return or yield statement builds.
fn ending_node(keyword: TokenKind, value: ASTNode, code_span: CodeSpan) -> (r: ASTNode)
    ensures
        view_node(r) == (if keyword == TokenKind::Return {
            SNode::ReturnDeclaration { statement: Box::new(view_node(value)), code_span, scope: GLOBAL_SCOPE }
        } else {
            SNode::YieldDeclaration { statement: Box::new(view_node(value)), code_span, scope: GLOBAL_SCOPE }
        }),
{
    if keyword == TokenKind::Return {
        ASTNode::ReturnDeclaration { statement: Box::new(value), code_span, scope: GLOBAL_SCOPE }
    } else {
        ASTNode::YieldDeclaration { statement: Box::new(value), code_span, scope: GLOBAL_SCOPE }
    }
}

/// `forever { ... }`
fn parse_forever(state: &mut ParserState) -> (r: Result<ASTNode, CodeError>)
    requires
        old(state).wf(),
    ensures
        kept(*old(state), *final(state)),
        node_step(r, final(state).position) == forever(old(state).tokens@, old(state).position as nat, old(state).depth as nat, old(state).type_depth as nat, old(state).sandbox_depth as nat),
        r is Ok ==> moved(old(state).tokens@, old(state).position as nat, final(state).position as nat),
    decreases rem(old(state).tokens@, old(state).position as nat), MAX_NESTING_DEPTH - old(state).depth, 2nat,
{
    let start_span = match expect_token(state, TokenKind::ForeverKeyword) {
        Ok(s) => s,
        Err(e) => return Err(e),
    };
    let body = match parse_block(state) {
        Ok(b) => b,
        Err(e) => return Err(e),
    };
    let code_span = join_spans(start_span, body.code_span());
    Ok(ASTNode::Forever { body: Box::new(body), code_span, scope: GLOBAL_SCOPE })
}

/// The node a one-name collection operation builds.
fn binder_node_of(
    keyword: TokenKind,
    iterator: String,
    index_iterator: Option<String>,
    iterable: ASTNode,
    body: ASTNode,
    code_span: CodeSpan,
) -> (r: ASTNode)
    ensures
        view_node(r) == binder_node(keyword, iterator, index_iterator, view_node(iterable), view_node(body), code_span),
{
    let iterable = Box::new(iterable);
    let body = Box::new(body);
    if keyword == TokenKind::MapDeclaration {
        ASTNode::MapExpression { iterator, index_iterator, iterable, body, code_span, scope: GLOBAL_SCOPE }
    } else if keyword == TokenKind::FilterDeclaration {
        ASTNode::FilterExpression { iterator, index_iterator, iterable, body, code_span, scope: GLOBAL_SCOPE }
    } else if keyword == TokenKind::EachDeclaration {
        ASTNode::EachExpression { iterator, index_iterator, iterable, body, code_span, scope: GLOBAL_SCOPE }
    } else if keyword == TokenKind::FindDeclaration {
        ASTNode::FindExpression { iterator, index_iterator, iterable, body, code_span, scope: GLOBAL_SCOPE }
    } else if keyword == TokenKind::AllDeclaration {
        ASTNode::AllExpression { iterator, index_iterator, iterable, body, code_span, scope: GLOBAL_SCOPE }
    } else {
        ASTNode::AnyExpression { iterator, index_iterator, iterable, body, code_span, scope: GLOBAL_SCOPE }
    }
}

/// `map item in items { ... }` and its kin `filter`, `each`, `find`, `all`
/// and `any`.
fn parse_binder_expression(state: &mut ParserState, keyword: TokenKind) -> (r: Result<ASTNode, CodeError>)
    requires
        old(state).wf(),
    ensures
        kept(*old(state), *final(state)),
        node_step(r, final(state).position) == binder_expression(old(state).tokens@, old(state).position as nat, old(state).depth as nat, old(state).type_depth as nat, old(state).sandbox_depth as nat, keyword),
        r is Ok ==> moved(old(state).tokens@, old(state).position as nat, final(state).position as nat),
    decreases rem(old(state).tokens@, old(state).position as nat), MAX_NESTING_DEPTH - old(state).depth, 2nat,
{
    let start_span = match expect_token(state, keyword) {
        Ok(s) => s,
        Err(e) => return Err(e),
    };
    let iterator = match expect_identifier(state) {
        Ok(name) => name,
        Err(e) => return Err(e),
    };
    let index_iterator = match parse_index_name(state) {
        Ok(name) => name,
        Err(e) => return Err(e),
    };
    match expect_token(state, TokenKind::InKeyword) {
        Ok(_) => {},
        Err(e) => return Err(e),
    }
    let iterable = match parse_expression(state, 0) {
        Ok(v) => v,
        Err(e) => return Err(e),
    };
    let body = match parse_block(state) {
        Ok(b) => b,
        Err(e) => return Err(e),
    };
    let code_span = join_spans(start_span, body.code_span());
    Ok(binder_node_of(keyword, iterator, index_iterator, iterable, body, code_span))
}

/// `reduce total item in items from start { ... }`, and `scan` written the
/// same way.
fn parse_fold_expression(state: &mut ParserState, keyword: TokenKind) -> (r: Result<ASTNode, CodeError>)
    requires
        old(state).wf(),
    ensures
        kept(*old(state), *final(state)),
        node_step(r, final(state).position) == fold_expression(old(state).tokens@, old(state).position as nat, old(state).depth as nat, old(state).type_depth as nat, old(state).sandbox_depth as nat, keyword),
        r is Ok ==> moved(old(state).tokens@, old(state).position as nat, final(state).position as nat),
    decreases rem(old(state).tokens@, old(state).position as nat), MAX_NESTING_DEPTH - old(state).depth, 2nat,
{
    let start_span = match expect_token(state, keyword) {
        Ok(s) => s,
        Err(e) => return Err(e),
    };
    let accumulator = match expect_identifier(state) {
        Ok(name) => name,
        Err(e) => return Err(e),
    };
    let iterator = match expect_identifier(state) {
        Ok(name) => name,
        Err(e) => return Err(e),
    };
    let index_iterator = match parse_index_name(state) {
        Ok(name) => name,
        Err(e) => return Err(e),
    };
    match expect_token(state, TokenKind::InKeyword) {
        Ok(_) => {},
        Err(e) => return Err(e),
    }
    let iterable = match parse_expression(state, 0) {
        Ok(v) => v,
        Err(e) => return Err(e),
    };
    match expect_token(state, TokenKind::FromKeyword) {
        Ok(_) => {},
        Err(e) => return Err(e),
    }
    let initial_value = match parse_expression(state, 0) {
        Ok(v) => v,
        Err(e) => return Err(e),
    };
    let body = match parse_block(state) {
        Ok(b) => b,
        Err(e) => return Err(e),
    };
    let code_span = join_spans(start_span, body.code_span());
    let iterable = Box::new(iterable);
    let initial_value = Box::new(initial_value);
    let body = Box::new(body);
    if keyword == TokenKind::ReduceDeclaration {
        Ok(ASTNode::ReduceExpression { accumulator, iterator, index_iterator, iterable, initial_value, body, code_span, scope: GLOBAL_SCOPE })
    } else {
        Ok(ASTNode::ScanExpression { accumulator, iterator, index_iterator, iterable, initial_value, body, code_span, scope: GLOBAL_SCOPE })
    }
}

/// `bs` in front of the branches of an if's step.
spec fn branches_prefixed(bs: Seq<(SNode, SNode)>, step: BranchStep) -> BranchStep {
    match step {
        (Ok((rest, else_branch)), p) => (Ok((bs + rest, else_branch)), p),
        (Err(e), p) => (Err(e), p),
    }
}

/// The view of an optional else branch.
spec fn else_view(e: Option<Box<ASTNode>>) -> Option<Box<SNode>> {
    match e {
        Some(b) => Some(Box::new(view_node(*b))),
        None => None,
    }
}

/// What the branches of an if yield, as the grammar writes it.
spec fn branch_step(r: Result<(Vec<(Box<ASTNode>, Box<ASTNode>)>, Option<Box<ASTNode>>), CodeError>, pos: usize) -> BranchStep {
    match r {
        Ok((bs, e)) => (Ok((view_branches(bs@), else_view(e))), pos as nat),
        Err(e) => (Err(e.view()), pos as nat),
    }
}

/// The branches of an if, `condition -> { ... }` separated by commas, with an
/// optional `else -> { ... }` last; the closing `}` is left for the caller.
fn parse_if_branches(state: &mut ParserState, open_span: CodeSpan) -> (r: Result<(Vec<(Box<ASTNode>, Box<ASTNode>)>, Option<Box<ASTNode>>), CodeError>)
    requires
        old(state).wf(),
    ensures
        kept(*old(state), *final(state)),
        branch_step(r, final(state).position) == if_branches(old(state).tokens@, old(state).position as nat, old(state).depth as nat, old(state).type_depth as nat, old(state).sandbox_depth as nat, open_span),
    decreases rem(old(state).tokens@, old(state).position as nat), MAX_NESTING_DEPTH - old(state).depth, 6nat,
{
    let ghost ts = state.tokens@;
    let ghost first = state.position as nat;
    let ghost d = state.depth as nat;
    let ghost td = state.type_depth as nat;
    let ghost sb = state.sandbox_depth as nat;
    let mut condition_branches: Vec<(Box<ASTNode>, Box<ASTNode>)> = Vec::new();
    proof {
        match if_branches(ts, first, d, td, sb, open_span) {
            (Ok((rest, e)), p) => assert(Seq::<(SNode, SNode)>::empty() + rest =~= rest),
            (Err(_), _) => {},
        }
    }
    loop
        invariant
            kept(*old(state), *state),
            ts == old(state).tokens@,
            first == old(state).position,
            d == old(state).depth,
            td == old(state).type_depth,
            sb == old(state).sandbox_depth,
            if_branches(ts, first, d, td, sb, open_span) == branches_prefixed(view_branches(condition_branches@), if_branches(ts, state.position as nat, d, td, sb, open_span)),
        decreases rem(ts, state.position as nat),
    {
        if state.position >= state.tokens.len() {
            return Err(plain_error(String::from_str("Unexpected end of if statement"), open_span));
        }
        if next_is_kind(state, TokenKind::ElseDeclaration) {
            advance(state);
            match expect_token(state, TokenKind::ArrowAssignment) {
                Ok(_) => {},
                Err(e) => return Err(e),
            }
            let branch = match parse_block(state) {
                Ok(b) => b,
                Err(e) => return Err(e),
            };
            proof { assert(view_branches(condition_branches@) + Seq::<(SNode, SNode)>::empty() =~= view_branches(condition_branches@)); }
            return Ok((condition_branches, Some(Box::new(branch))));
        }
        let condition = match parse_expression(state, 0) {
            Ok(c) => c,
            Err(e) => return Err(e),
        };
        match expect_token(state, TokenKind::ArrowAssignment) {
            Ok(_) => {},
            Err(e) => return Err(e),
        }
        let branch = match parse_block(state) {
            Ok(b) => b,
            Err(e) => return Err(e),
        };
        let ghost before = condition_branches@;
        let ghost pair = (view_node(condition), view_node(branch));
        proof { lemma_view_branches_push(before, condition, branch); }
        condition_branches.push((Box::new(condition), Box::new(branch)));
        if next_is_kind(state, TokenKind::Comma) {
            advance(state);
            proof {
                match if_branches(ts, state.position as nat, d, td, sb, open_span) {
                    (Ok((rest, e)), p) => assert(view_branches(before) + (seq![pair] + rest) =~= view_branches(condition_branches@) + rest),
                    (Err(_), _) => {},
                }
            }
        } else {
            proof { assert(view_branches(before) + seq![pair] =~= view_branches(condition_branches@)); }
            return Ok((condition_branches, None));
        }
    }
}

/// `if { condition -> { ... }, else -> { ... } }`; as a statement it may be
/// followed by `;`.
fn parse_if_statement_expr(state: &mut ParserState, is_expression: bool) -> (r: Result<ASTNode, CodeError>)
    requires
        old(state).wf(),
    ensures
        kept(*old(state), *final(state)),
        node_step(r, final(state).position) == if_statement(old(state).tokens@, old(state).position as nat, old(state).depth as nat, old(state).type_depth as nat, old(state).sandbox_depth as nat, is_expression),
        r is Ok ==> moved(old(state).tokens@, old(state).position as nat, final(state).position as nat),
    decreases rem(old(state).tokens@, old(state).position as nat), MAX_NESTING_DEPTH - old(state).depth, 2nat,
{
    match expect_token(state, TokenKind::IfDeclaration) {
        Ok(_) => {},
        Err(e) => return Err(e),
    }
    let open_span = match expect_token(state, TokenKind::BlockOpen) {
        Ok(s) => s,
        Err(e) => return Err(e),
    };
    let (condition_branches, else_branch) = match parse_if_branches(state, open_span) {
        Ok(parts) => parts,
        Err(e) => return Err(e),
    };
    match expect_token(state, TokenKind::BlockClose) {
        Ok(_) => {},
        Err(e) => return Err(e),
    }
    let code_span = if !is_expression && next_is_kind(state, TokenKind::EndStatementOrExpression) {
        match expect_token(state, TokenKind::EndStatementOrExpression) {
            Ok(s) => s,
            Err(e) => return Err(e),
        }
    } else {
        previous_span(state)
    };
    Ok(ASTNode::IfStatement { condition_branches, else_branch, code_span, scope: GLOBAL_SCOPE })
}

/// The operator the next token is, if it is one.
fn next_operator(state: &ParserState) -> (r: Option<Operation>)
    requires
        state.wf(),
    ensures
        r == (match peek(state.tokens@, state.position as nat) {
            Some(Token { token_type: TokenType::Operator(o), .. }) => Some(o),
            _ => None,
        }),
{
    if state.position < state.tokens.len() {
        match &state.tokens[state.position].token_type {
            TokenType::Operator(o) => Some(*o),
            _ => None,
        }
    } else {
        None
    }
}

/// An expression whose operators bind at least as tightly as
/// `min_precedence`: a primary expression, then each binary operator with its
/// right operand, which binds one step tighter.
fn parse_expression(state: &mut ParserState, min_precedence: u8) -> (r: Result<ASTNode, CodeError>)
    requires
        old(state).wf(),
    ensures
        kept(*old(state), *final(state)),
        node_step(r, final(state).position) == expression(old(state).tokens@, old(state).position as nat, old(state).depth as nat, old(state).type_depth as nat, old(state).sandbox_depth as nat, min_precedence),
        r is Ok ==> moved(old(state).tokens@, old(state).position as nat, final(state).position as nat),
    decreases rem(old(state).tokens@, old(state).position as nat), MAX_NESTING_DEPTH - old(state).depth, 5nat,
{
    let ghost ts = state.tokens@;
    let ghost start = state.position as nat;
    let ghost d = state.depth as nat;
    let ghost td = state.type_depth as nat;
    let ghost sb = state.sandbox_depth as nat;
    let mut left = match parse_primary(state) {
        Ok(n) => n,
        Err(e) => return Err(e),
    };
    loop
        invariant
            kept(*old(state), *state),
            ts == old(state).tokens@,
            start == old(state).position,
            d == old(state).depth,
            td == old(state).type_depth,
            sb == old(state).sandbox_depth,
            moved(ts, start, state.position as nat),
            expression(ts, start, d, td, sb, min_precedence) == operator_chain(ts, view_node(left), state.position as nat, d, td, sb, min_precedence),
        decreases rem(ts, state.position as nat),
    {
        let ghost here = state.position as nat;
        match next_operator(state) {
            Some(op) => {
                if op.precedence() < min_precedence {
                    return Ok(left);
                }
                advance(state);
                let code_span = current_span(state);
                if op.is_unary() {
                    let mut message = String::from_str("The operator '");
                    message.append(op.symbol().as_str());
                    message.append("' cannot be used between two values");
                    return Err(plain_error(message, code_span));
                }
                let right = match parse_expression(state, op.precedence() + 1) {
                    Ok(n) => n,
                    Err(e) => return Err(e),
                };
                left = ASTNode::BinaryOperation { left: Box::new(left), operator: op, right: Box::new(right), code_span, scope: GLOBAL_SCOPE };
            },
            None => {
                if next_is_kind(state, TokenKind::Assignment) {
                    let code_span = next_span(state);
                    return Err(CodeError {
                        message: String::from_str("Nail has no reassignment: a variable cannot be assigned a second time"),
                        help: Some(String::from_str("declare a binding with a type ('name:i = ...', redeclaring an earlier name in the same scope is allowed), accumulate across items with reduce, or write '==' if a comparison was meant")),
                        code_span,
                    });
                }
                return Ok(left);
            },
        }
    }
}

/// A primary expression, refusing expressions nested past the limit.
fn parse_primary(state: &mut ParserState) -> (r: Result<ASTNode, CodeError>)
    requires
        old(state).wf(),
    ensures
        kept(*old(state), *final(state)),
        node_step(r, final(state).position) == primary(old(state).tokens@, old(state).position as nat, old(state).depth as nat, old(state).type_depth as nat, old(state).sandbox_depth as nat),
        r is Ok ==> moved(old(state).tokens@, old(state).position as nat, final(state).position as nat),
    decreases rem(old(state).tokens@, old(state).position as nat), MAX_NESTING_DEPTH - old(state).depth, 4nat,
{
    if state.depth >= MAX_NESTING_DEPTH {
        return Err(depth_error(state, "expression"));
    }
    state.depth = state.depth + 1;
    let result = parse_primary_inner(state);
    state.depth = state.depth - 1;
    result
}

/// A literal, a name, a call, a parenthesised expression, a unary operation,
/// or one of the expressions that start with a keyword, with the field
/// accesses that follow it.
#[verifier::rlimit(50)]
fn parse_primary_inner(state: &mut ParserState) -> (r: Result<ASTNode, CodeError>)
    requires
        old(state).wf(),
    ensures
        kept(*old(state), *final(state)),
        node_step(r, final(state).position) == primary_inner(old(state).tokens@, old(state).position as nat, old(state).depth as nat, old(state).type_depth as nat, old(state).sandbox_depth as nat),
        r is Ok ==> moved(old(state).tokens@, old(state).position as nat, final(state).position as nat),
    decreases rem(old(state).tokens@, old(state).position as nat), MAX_NESTING_DEPTH - old(state).depth, 3nat,
{
    if state.position >= state.tokens.len() {
        return Err(plain_error(String::from_str("Unexpected end of file"), previous_span(state)));
    }
    let at = state.position;
    let code_span = state.tokens[at].code_span;
    let kind = state.tokens[at].token_type.kind();
    let node = match &state.tokens[at].token_type {
        TokenType::Operator(op) => {
            let op = *op;
            if op.is_unary() || op == Operation::Sub {
                advance(state);
                let operand = match parse_primary(state) {
                    Ok(n) => n,
                    Err(e) => return Err(e),
                };
                let operator = if op == Operation::Sub { Operation::Neg } else { op };
                return Ok(ASTNode::UnaryOperation { operator, operand: Box::new(operand), code_span, scope: GLOBAL_SCOPE });
            }
            return Err(unexpected(kind, code_span));
        },
        TokenType::Identifier(name) => {
            let name = name.clone();
            advance(state);
            if next_is_kind(state, TokenKind::ParenthesisOpen) {
                if text_is(&name, "f") {
                    return Err(no_lambdas(code_span));
                }
                match parse_function_call(state, name, code_span) {
                    Ok(n) => n,
                    Err(e) => return Err(e),
                }
            } else if next_is_kind(state, TokenKind::BlockOpen) && starts_with_upper(&name) {
                match parse_struct_instantiation(state, name, code_span) {
                    Ok(n) => n,
                    Err(e) => return Err(e),
                }
            } else {
                ASTNode::Identifier { name, code_span, scope: GLOBAL_SCOPE }
            }
        },
        TokenType::Float(value) => {
            let value = value.clone();
            advance(state);
            ASTNode::NumberLiteral { value, data_type: NailDataTypeDescriptor::Float, code_span, scope: GLOBAL_SCOPE }
        },
        TokenType::Integer(value) => {
            let value = value.clone();
            advance(state);
            ASTNode::NumberLiteral { value, data_type: NailDataTypeDescriptor::Int, code_span, scope: GLOBAL_SCOPE }
        },
        TokenType::StringLiteral { value, .. } => {
            let value = value.clone();
            advance(state);
            ASTNode::StringLiteral { value, code_span, scope: GLOBAL_SCOPE }
        },
        TokenType::BooleanLiteral(value) => {
            let value = *value;
            advance(state);
            ASTNode::BooleanLiteral { value, code_span, scope: GLOBAL_SCOPE }
        },
        TokenType::ParenthesisOpen => {
            advance(state);
            let expr = match parse_expression(state, 0) {
                Ok(n) => n,
                Err(e) => return Err(e),
            };
            match expect_token(state, TokenKind::ParenthesisClose) {
                Ok(_) => {},
                Err(e) => return Err(e),
            }
            expr
        },
        TokenType::EnumVariant(variant) => {
            let name = variant.name.clone();
            let variant = variant.variant.clone();
            advance(state);
            ASTNode::EnumVariant { name, variant, code_span, scope: GLOBAL_SCOPE }
        },
        TokenType::ArrayOpen => match parse_array_literal(state) {
            Ok(n) => n,
            Err(e) => return Err(e),
        },
        TokenType::IfDeclaration => match parse_if_statement_expr(state, true) {
            Ok(n) => n,
            Err(e) => return Err(e),
        },
        TokenType::MapDeclaration | TokenType::FilterDeclaration | TokenType::FindDeclaration | TokenType::AllDeclaration
        | TokenType::AnyDeclaration => match parse_binder_expression(state, kind) {
            Ok(n) => n,
            Err(e) => return Err(e),
        },
        TokenType::ReduceDeclaration | TokenType::ScanDeclaration => match parse_fold_expression(state, kind) {
            Ok(n) => n,
            Err(e) => return Err(e),
        },
        TokenType::FunctionSignature(_) => {
            return Err(no_lambdas(code_span));
        },
        _ => {
            return Err(unexpected(kind, code_span));
        },
    };
    parse_field_access_chain(state, node)
}

/// The arguments of a call, separated by commas, up to the `)`, which is
/// left for the caller.
fn parse_call_arguments(state: &mut ParserState) -> (r: Result<Vec<ASTNode>, CodeError>)
    requires
        old(state).wf(),
    ensures
        kept(*old(state), *final(state)),
        list_step(r, final(state).position) == call_arguments(old(state).tokens@, old(state).position as nat, old(state).depth as nat, old(state).type_depth as nat, old(state).sandbox_depth as nat),
    decreases rem(old(state).tokens@, old(state).position as nat), MAX_NESTING_DEPTH - old(state).depth, 6nat,
{
    let ghost ts = state.tokens@;
    let ghost first = state.position as nat;
    let ghost d = state.depth as nat;
    let ghost td = state.type_depth as nat;
    let ghost sb = state.sandbox_depth as nat;
    let mut args: Vec<ASTNode> = Vec::new();
    proof { lemma_list_prefixed_empty(call_arguments(ts, first, d, td, sb)); }
    loop
        invariant
            kept(*old(state), *state),
            ts == old(state).tokens@,
            first == old(state).position,
            d == old(state).depth,
            td == old(state).type_depth,
            sb == old(state).sandbox_depth,
            call_arguments(ts, first, d, td, sb) == list_prefixed(view_nodes(args@), call_arguments(ts, state.position as nat, d, td, sb)),
        decreases rem(ts, state.position as nat),
    {
        if state.position >= state.tokens.len() || next_is_kind(state, TokenKind::ParenthesisClose) {
            proof { assert(view_nodes(args@) + Seq::<SNode>::empty() =~= view_nodes(args@)); }
            return Ok(args);
        }
        let arg = match parse_expression(state, 0) {
            Ok(n) => n,
            Err(e) => return Err(e),
        };
        let ghost before = args@;
        args.push(arg);
        proof { lemma_view_nodes_push(before, arg); }
        if next_is_kind(state, TokenKind::Comma) {
            advance(state);
            proof { lemma_list_prefixed_cons(view_nodes(before), view_node(arg), call_arguments(ts, state.position as nat, d, td, sb)); }
        } else {
            proof { assert(view_nodes(before) + seq![view_node(arg)] =~= view_nodes(args@)); }
            return Ok(args);
        }
    }
}

/// `name(arguments)`, from the `(` on.
fn parse_function_call(state: &mut ParserState, name: String, name_span: CodeSpan) -> (r: Result<ASTNode, CodeError>)
    requires
        old(state).wf(),
    ensures
        kept(*old(state), *final(state)),
        node_step(r, final(state).position) == function_call(old(state).tokens@, old(state).position as nat, old(state).depth as nat, old(state).type_depth as nat, old(state).sandbox_depth as nat, name, name_span),
        r is Ok ==> moved(old(state).tokens@, old(state).position as nat, final(state).position as nat),
    decreases rem(old(state).tokens@, old(state).position as nat), MAX_NESTING_DEPTH - old(state).depth, 2nat,
{
    match expect_token(state, TokenKind::ParenthesisOpen) {
        Ok(_) => {},
        Err(e) => return Err(e),
    }
    let args = match parse_call_arguments(state) {
        Ok(args) => args,
        Err(e) => return Err(e),
    };
    let closing_span = match expect_token(state, TokenKind::ParenthesisClose) {
        Ok(s) => s,
        Err(e) => return Err(e),
    };
    Ok(ASTNode::FunctionCall { name, args, code_span: join_spans(name_span, closing_span), scope: GLOBAL_SCOPE })
}

/// The elements of an array literal, separated by commas, up to the `]`,
/// which is left for the caller.
fn parse_array_elements(state: &mut ParserState) -> (r: Result<Vec<ASTNode>, CodeError>)
    requires
        old(state).wf(),
    ensures
        kept(*old(state), *final(state)),
        list_step(r, final(state).position) == array_elements(old(state).tokens@, old(state).position as nat, old(state).depth as nat, old(state).type_depth as nat, old(state).sandbox_depth as nat),
    decreases rem(old(state).tokens@, old(state).position as nat), MAX_NESTING_DEPTH - old(state).depth, 6nat,
{
    let ghost ts = state.tokens@;
    let ghost first = state.position as nat;
    let ghost d = state.depth as nat;
    let ghost td = state.type_depth as nat;
    let ghost sb = state.sandbox_depth as nat;
    let mut elements: Vec<ASTNode> = Vec::new();
    proof { lemma_list_prefixed_empty(array_elements(ts, first, d, td, sb)); }
    loop
        invariant
            kept(*old(state), *state),
            ts == old(state).tokens@,
            first == old(state).position,
            d == old(state).depth,
            td == old(state).type_depth,
            sb == old(state).sandbox_depth,
            array_elements(ts, first, d, td, sb) == list_prefixed(view_nodes(elements@), array_elements(ts, state.position as nat, d, td, sb)),
        decreases rem(ts, state.position as nat),
    {
        if next_is_kind(state, TokenKind::ArrayClose) {
            proof { assert(view_nodes(elements@) + Seq::<SNode>::empty() =~= view_nodes(elements@)); }
            return Ok(elements);
        }
        let element = match parse_expression(state, 0) {
            Ok(n) => n,
            Err(e) => return Err(e),
        };
        let ghost before = elements@;
        elements.push(element);
        proof { lemma_view_nodes_push(before, element); }
        if next_is_kind(state, TokenKind::Comma) {
            advance(state);
            proof { lemma_list_prefixed_cons(view_nodes(before), view_node(element), array_elements(ts, state.position as nat, d, td, sb)); }
        } else if next_is_kind(state, TokenKind::ArrayClose) {
            proof { assert(view_nodes(before) + seq![view_node(element)] =~= view_nodes(elements@)); }
            return Ok(elements);
        } else {
            return Err(plain_error(String::from_str("Expected ',' or ']' in array literal"), current_span(state)));
        }
    }
}

/// `[elements]`
fn parse_array_literal(state: &mut ParserState) -> (r: Result<ASTNode, CodeError>)
    requires
        old(state).wf(),
    ensures
        kept(*old(state), *final(state)),
        node_step(r, final(state).position) == array_literal(old(state).tokens@, old(state).position as nat, old(state).depth as nat, old(state).type_depth as nat, old(state).sandbox_depth as nat),
        r is Ok ==> moved(old(state).tokens@, old(state).position as nat, final(state).position as nat),
    decreases rem(old(state).tokens@, old(state).position as nat), MAX_NESTING_DEPTH - old(state).depth, 2nat,
{
    let start_span = current_span(state);
    match expect_token(state, TokenKind::ArrayOpen) {
        Ok(_) => {},
        Err(e) => return Err(e),
    }
    let elements = match parse_array_elements(state) {
        Ok(es) => es,
        Err(e) => return Err(e),
    };
    match expect_token(state, TokenKind::ArrayClose) {
        Ok(_) => {},
        Err(e) => return Err(e),
    }
    Ok(ASTNode::ArrayLiteral { elements, code_span: start_span, scope: GLOBAL_SCOPE })
}

/// The fields of a struct instantiation, through the closing `}`.
fn parse_struct_fields(state: &mut ParserState) -> (r: Result<Vec<ASTNode>, CodeError>)
    requires
        old(state).wf(),
    ensures
        kept(*old(state), *final(state)),
        list_step(r, final(state).position) == struct_fields(old(state).tokens@, old(state).position as nat, old(state).depth as nat, old(state).type_depth as nat, old(state).sandbox_depth as nat),
    decreases rem(old(state).tokens@, old(state).position as nat), MAX_NESTING_DEPTH - old(state).depth, 6nat,
{
    let ghost ts = state.tokens@;
    let ghost first = state.position as nat;
    let ghost d = state.depth as nat;
    let ghost td = state.type_depth as nat;
    let ghost sb = state.sandbox_depth as nat;
    let mut fields: Vec<ASTNode> = Vec::new();
    proof { lemma_list_prefixed_empty(struct_fields(ts, first, d, td, sb)); }
    loop
        invariant
            kept(*old(state), *state),
            ts == old(state).tokens@,
            first == old(state).position,
            d == old(state).depth,
            td == old(state).type_depth,
            sb == old(state).sandbox_depth,
            struct_fields(ts, first, d, td, sb) == list_prefixed(view_nodes(fields@), struct_fields(ts, state.position as nat, d, td, sb)),
        decreases rem(ts, state.position as nat),
    {
        if next_is_kind(state, TokenKind::BlockClose) {
            advance(state);
            proof { assert(view_nodes(fields@) + Seq::<SNode>::empty() =~= view_nodes(fields@)); }
            return Ok(fields);
        }
        if state.position >= state.tokens.len() {
            return Err(plain_error(String::from_str("Unexpected end of input in struct instantiation"), previous_span(state)));
        }
        let at = state.position;
        let field_name = match &state.tokens[at].token_type {
            TokenType::Identifier(name) => name.clone(),
            _ => {
                return Err(plain_error(String::from_str("Expected field name in struct instantiation"), state.tokens[at].code_span));
            },
        };
        advance(state);
        match expect_token(state, TokenKind::Assignment) {
            Ok(_) => {},
            Err(e) => return Err(e),
        }
        let field_value = match parse_expression(state, 0) {
            Ok(n) => n,
            Err(e) => return Err(e),
        };
        let field_span = field_value.code_span();
        let field = ASTNode::StructInstantiationField { name: field_name, value: Box::new(field_value), code_span: field_span, scope: GLOBAL_SCOPE };
        let ghost before = fields@;
        fields.push(field);
        proof { lemma_view_nodes_push(before, field); }
        if next_is_kind(state, TokenKind::Comma) {
            advance(state);
            proof { lemma_list_prefixed_cons(view_nodes(before), view_node(field), struct_fields(ts, state.position as nat, d, td, sb)); }
        } else if !next_is_kind(state, TokenKind::BlockClose) {
            return Err(plain_error(String::from_str("Expected ',' or '}' in struct instantiation"), previous_span(state)));
        } else {
            proof {
                lemma_list_prefixed_cons(view_nodes(before), view_node(field), struct_fields(ts, state.position as nat, d, td, sb));
                assert(seq![view_node(field)] + Seq::<SNode>::empty() =~= seq![view_node(field)]);
            }
        }
    }
}

/// `Name { field = value, ... }`, from the `{` on.
fn parse_struct_instantiation(state: &mut ParserState, struct_name: String, start_span: CodeSpan) -> (r: Result<ASTNode, CodeError>)
    requires
        old(state).wf(),
    ensures
        kept(*old(state), *final(state)),
        node_step(r, final(state).position) == struct_instantiation(old(state).tokens@, old(state).position as nat, old(state).depth as nat, old(state).type_depth as nat, old(state).sandbox_depth as nat, struct_name, start_span),
        r is Ok ==> moved(old(state).tokens@, old(state).position as nat, final(state).position as nat),
    decreases rem(old(state).tokens@, old(state).position as nat), MAX_NESTING_DEPTH - old(state).depth, 2nat,
{
    match expect_token(state, TokenKind::BlockOpen) {
        Ok(_) => {},
        Err(e) => return Err(e),
    }
    let fields = match parse_struct_fields(state) {
        Ok(fs) => fs,
        Err(e) => return Err(e),
    };
    Ok(ASTNode::StructInstantiation { name: struct_name, fields, code_span: start_span, scope: GLOBAL_SCOPE })
}

/// A plain-language name for a kind of statement, for the error that
/// refuses it at the top level of an imported file.
fn describe_statement(statement: &ASTNode) -> (r: String)
    ensures
        r@ == statement_description(view_node(*statement)),
{
    match statement {
        ASTNode::FunctionCall { name, .. } => {
            let mut text = String::from_str("a call to '");
            text.append(name.as_str());
            text.append("'");
            text
        },
        ASTNode::IfStatement { .. } => String::from_str("an if statement"),
        ASTNode::Forever { .. } => String::from_str("a forever block"),
        ASTNode::ParallelBlock { .. } => String::from_str("a parallel block"),
        ASTNode::ConcurrentBlock { .. } => String::from_str("a concurrent block"),
        ASTNode::Block { .. } => String::from_str("a block"),
        ASTNode::MapExpression { .. } => String::from_str("a map expression"),
        ASTNode::FilterExpression { .. } => String::from_str("a filter expression"),
        ASTNode::ReduceExpression { .. } => String::from_str("a reduce expression"),
        ASTNode::ScanExpression { .. } => String::from_str("a scan expression"),
        ASTNode::EachExpression { .. } => String::from_str("an each expression"),
        ASTNode::FindExpression { .. } => String::from_str("a find expression"),
        ASTNode::AllExpression { .. } => String::from_str("an all expression"),
        ASTNode::AnyExpression { .. } => String::from_str("an any expression"),
        ASTNode::ReturnDeclaration { .. } => String::from_str("a return statement"),
        ASTNode::YieldDeclaration { .. } => String::from_str("a yield statement"),
        _ => String::from_str("an executable statement"),
    }
}

/// An imported file may only declare things: functions, structs, enums and
/// constants. Anything that runs at its top level is refused, so that the
/// importing program alone decides when the imported code runs.
fn check_sandboxed_statement(statement: &ASTNode) -> (r: Result<(), CodeError>)
    ensures
        r is Ok <==> is_declaration(view_node(*statement)),
        r matches Err(e) ==> e.view() == sandbox_error(view_node(*statement)),
{
    match statement {
        ASTNode::FunctionDeclaration { .. } | ASTNode::StructDeclaration { .. } | ASTNode::EnumDeclaration { .. }
        | ASTNode::ConstDeclaration { .. } => Ok(()),
        other => {
            let mut message = String::from_str("An imported file may only declare functions, structs, enums, and constants, but this file has ");
            message.append(describe_statement(other).as_str());
            message.append(" at the top level");
            Err(CodeError {
                message,
                help: Some(String::from_str("move the statement into a function so your program decides when it runs, or bring the file in with import_dangerous if you trust it")),
                code_span: other.code_span(),
            })
        },
    }
}

/// Reads every top-level statement of a file. The markers the lexer puts
/// around an imported file only count how many imported files the parser is
/// inside.
fn parse_inner(state: &mut ParserState) -> (r: Result<ASTNode, CodeError>)
    requires
        old(state).wf(),
        old(state).position == 0,
        old(state).depth == 0,
        old(state).type_depth == 0,
        old(state).sandbox_depth == 0,
    ensures
        match r {
            Ok(n) => program_from(old(state).tokens@, 0, 0) == Ok::<Seq<SNode>, ErrorView>(kids(view_node(n))) && view_node(n) == program_node(kids(view_node(n))),
            Err(e) => program_from(old(state).tokens@, 0, 0) == Err::<Seq<SNode>, ErrorView>(e.view()),
        },
{
    let ghost ts = state.tokens@;
    let mut program: Vec<ASTNode> = Vec::new();
    proof {
        match program_from(ts, 0, 0) {
            Ok(rest) => assert(Seq::<SNode>::empty() + rest =~= rest),
            Err(_) => {},
        }
    }
    loop
        invariant
            state.wf(),
            ts == state.tokens@,
            ts == old(state).tokens@,
            state.depth == 0,
            state.type_depth == 0,
            state.sandbox_depth <= state.position,
            program_from(ts, 0, 0) == prefixed(view_nodes(program@), program_from(ts, state.position as nat, state.sandbox_depth as nat)),
        decreases rem(ts, state.position as nat),
    {
        if state.position >= state.tokens.len() {
            proof { assert(view_nodes(program@) + Seq::<SNode>::empty() =~= view_nodes(program@)); }
            let result = ASTNode::Program { statements: program, code_span: CodeSpan::default(), scope: GLOBAL_SCOPE };
            return Ok(result);
        }
        let kind = state.tokens[state.position].token_type.kind();
        if kind == TokenKind::SandboxStart {
            advance(state);
            state.sandbox_depth = state.sandbox_depth + 1;
            continue;
        }
        if kind == TokenKind::SandboxEnd {
            advance(state);
            state.sandbox_depth = if state.sandbox_depth > 0 { state.sandbox_depth - 1 } else { 0 };
            continue;
        }
        let statement = match parse_statement(state) {
            Ok(st) => st,
            Err(e) => return Err(e),
        };
        if state.sandbox_depth > 0 {
            match check_sandboxed_statement(&statement) {
                Ok(()) => {},
                Err(e) => return Err(e),
            }
        }
        let ghost before = program@;
        program.push(statement);
        proof {
            lemma_view_nodes_push(before, statement);
            match program_from(ts, state.position as nat, state.sandbox_depth as nat) {
                Ok(rest) => assert(view_nodes(before) + (seq![view_node(statement)] + rest) =~= view_nodes(program@) + rest),
                Err(_) => {},
            }
        }
    }
}

/// What the search of a stack of nodes finds, taking the top of the stack
/// (the end of the sequence) first.
spec fn stack_search<'a>(s: Seq<(&'a ASTNode, usize)>) -> Option<CodeSpan>
    decreases s.len(),
{
    if s.len() == 0 {
        None
    } else {
        first_some(first_deep(view_node(*s.last().0), s.last().1 as nat), stack_search(s.drop_last()))
    }
}

/// How many nodes are in the trees on a stack.
spec fn stack_size<'a>(s: Seq<(&'a ASTNode, usize)>) -> nat
    decreases s.len(),
{
    if s.len() == 0 {
        0
    } else {
        size(view_node(*s.last().0)) + stack_size(s.drop_last())
    }
}

/// Searching two stacks, one on top of the other.
proof fn lemma_stack_append<'a>(a: Seq<(&'a ASTNode, usize)>, b: Seq<(&'a ASTNode, usize)>)
    ensures
        stack_search(a + b) == first_some(stack_search(b), stack_search(a)),
        stack_size(a + b) == stack_size(a) + stack_size(b),
    decreases b.len(),
{
    if b.len() == 0 {
        assert(a + b =~= a);
    } else {
        assert((a + b).drop_last() =~= a + b.drop_last());
        assert((a + b).last() == b.last());
        lemma_stack_append(a, b.drop_last());
    }
}

/// A stack of the children of a node, all at one depth, searched.
proof fn lemma_stack_kids<'a>(b: Seq<(&'a ASTNode, usize)>, ks: Seq<SNode>, depth: nat)
    requires
        b.len() == ks.len(),
        forall|i: int| 0 <= i < b.len() ==> view_node(*(#[trigger] b[i]).0) == ks[i] && b[i].1 == depth,
    ensures
        stack_search(b) == first_deep_list(ks, depth),
        stack_size(b) == size_list(ks),
    decreases b.len(),
{
    if b.len() > 0 {
        let b2 = b.drop_last();
        let k2 = ks.drop_last();
        assert forall|i: int| 0 <= i < b2.len() implies view_node(*(#[trigger] b2[i]).0) == k2[i] && b2[i].1 == depth by {
            assert(b2[i] == b[i]);
        }
        lemma_stack_kids(b2, k2, depth);
        assert(b[b.len() - 1] == b.last());
    }
}

/// The span of the first node deeper than `MAX_AST_DEPTH`, or `None` when
/// the whole tree is within it. The walk runs over a stack of its own rather
/// than recursing, so that it handles the very trees it exists to refuse.
fn node_below_depth_limit(root: &ASTNode) -> (r: Option<CodeSpan>)
    ensures
        r == first_deep(view_node(*root), 0),
{
    let mut stack: Vec<(&ASTNode, usize)> = Vec::new();
    stack.push((root, 0));
    proof {
        let e = stack@.drop_last();
        assert(e =~= Seq::<(&ASTNode, usize)>::empty());
        assert(stack_search(e) == None::<CodeSpan>);
        assert(stack@.last() == (root, 0usize));
    }
    loop
        invariant
            stack_search(stack@) == first_deep(view_node(*root), 0),
        decreases stack_size(stack@),
    {
        let ghost whole = stack@;
        let top = stack.pop();
        match top {
            None => {
                return None;
            },
            Some((node, depth)) => {
                proof { assert(stack@ =~= whole.drop_last()); }
                if depth > MAX_AST_DEPTH {
                    return Some(node.code_span());
                }
                let ghost rest = stack@;
                let children = node.children();
                let mut i: usize = 0;
                while i < children.len()
                    invariant
                        i <= children@.len(),
                        depth <= MAX_AST_DEPTH,
                        stack@.len() == rest.len() + i,
                        stack@.subrange(0, rest.len() as int) == rest,
                        forall|j: int| 0 <= j < i ==> #[trigger] stack@[rest.len() + j] == (children@[j], (depth + 1) as usize),
                    decreases children@.len() - i,
                {
                    stack.push((children[i], depth + 1));
                    i = i + 1;
                    proof {
                        assert(stack@.subrange(0, rest.len() as int) =~= rest);
                    }
                }
                proof {
                    let pushed = stack@.subrange(rest.len() as int, stack@.len() as int);
                    assert(stack@ =~= rest + pushed);
                    let ks = kids(view_node(*node));
                    assert(ref_views(children@) == ks);
                    assert forall|j: int| 0 <= j < pushed.len() implies view_node(*(#[trigger] pushed[j]).0) == ks[j] && pushed[j].1 == depth + 1 by {
                        assert(pushed[j] == stack@[rest.len() + j]);
                        assert(ref_views(children@)[j] == view_node(*children@[j]));
                    }
                    lemma_stack_kids(pushed, ks, (depth + 1) as nat);
                    lemma_stack_append(rest, pushed);
                    lemma_first_deep_kids(view_node(*node), depth as nat);
                }
            },
        }
    }
}

/// Reads a file's tokens into its syntax tree, or the error that stops it:
/// the first step that fails, a statement an imported file may not hold, or
/// a finished tree deeper than `MAX_AST_DEPTH`.
pub fn parse(tokens: Vec<Token>) -> (r: Result<ASTNode, CodeError>)
    requires
        tokens@.len() + 2 <= usize::MAX,
    ensures
        match r {
            Ok(n) => parse_result(tokens@) == Ok::<SNode, ErrorView>(view_node(n)),
            Err(e) => parse_result(tokens@) == Err::<SNode, ErrorView>(e.view()),
        },
{
    let mut state = ParserState { tokens, position: 0, sandbox_depth: 0, depth: 0, type_depth: 0 };
    let ast = match parse_inner(&mut state) {
        Ok(ast) => ast,
        Err(e) => return Err(e),
    };
    match node_below_depth_limit(&ast) {
        Some(code_span) => {
            let mut message = String::from_str("This expression nests more than ");
            message.append(int_to_text(MAX_AST_DEPTH as i64).as_str());
            message.append(" levels deep, which is deeper than the compiler will read");
            Err(CodeError {
                message,
                help: Some(String::from_str("give the pieces names and combine the names, or build the values in an array and fold them with reduce")),
                code_span,
            })
        },
        None => Ok(ast),
    }
}

/// A tree the parser hands back is never deeper than `MAX_AST_DEPTH`: no path
/// from the root down has more edges than that.
pub proof fn parsed_tree_is_within_depth_limit(tokens: Seq<Token>, tree: SNode)
    requires
        parse_result(tokens) == Ok::<SNode, ErrorView>(tree),
    ensures
        height(tree) <= MAX_AST_DEPTH,
{
    match program_from(tokens, 0, 0) {
        Ok(statements) => {
            lemma_first_deep_height(program_node(statements), 0);
        },
        Err(_) => {},
    }
}

/// Within an imported file that is never closed, whatever the reading
/// finds at the top level only declares something.
proof fn lemma_sandboxed_declarations(ts: Seq<Token>, pos: nat, sb: nat)
    requires
        sb > 0,
        forall|i: int| 0 <= i < ts.len() ==> (#[trigger] ts[i]).token_type.kind_of() != TokenKind::SandboxEnd,
        program_from(ts, pos, sb) is Ok,
    ensures
        forall|i: int| 0 <= i < program_from(ts, pos, sb)->Ok_0.len() ==> is_declaration(#[trigger] program_from(ts, pos, sb)->Ok_0[i]),
    decreases rem(ts, pos),
{
    match peek(ts, pos) {
        None => {},
        Some(t) => {
            assert(t == ts[pos as int]);
            if t.token_type.kind_of() == TokenKind::SandboxStart {
                lemma_sandboxed_declarations(ts, pos + 1, sb + 1);
            } else {
                match statement(ts, pos, 0, 0, sb) {
                    (Ok(st), p) => {
                        lemma_sandboxed_declarations(ts, p, sb);
                        let rest = program_from(ts, p, sb)->Ok_0;
                        assert forall|i: int| 0 <= i < program_from(ts, pos, sb)->Ok_0.len() implies is_declaration(#[trigger] program_from(ts, pos, sb)->Ok_0[i]) by {
                            if i > 0 {
                                assert(program_from(ts, pos, sb)->Ok_0[i] == rest[i - 1]);
                            }
                        }
                    },
                    (Err(_), _) => {},
                }
            }
        },
    }
}

/// An imported file may only declare functions, structs, enums and
/// constants: a file that the parser reads as one import from its first
/// token on, never closed, gives a program of declarations alone.
pub proof fn imported_file_only_declares(tokens: Seq<Token>, tree: SNode)
    requires
        parse_result(tokens) == Ok::<SNode, ErrorView>(tree),
        tokens.len() > 0,
        tokens[0].token_type.kind_of() == TokenKind::SandboxStart,
        forall|i: int| 0 <= i < tokens.len() ==> (#[trigger] tokens[i]).token_type.kind_of() != TokenKind::SandboxEnd,
    ensures
        forall|i: int| 0 <= i < kids(tree).len() ==> is_declaration(#[trigger] kids(tree)[i]),
{
    assert(peek(tokens, 0) == Some(tokens[0]));
    assert(program_from(tokens, 0, 0) == program_from(tokens, 1, 1));
    lemma_sandboxed_declarations(tokens, 1, 1);
}

} // verus!
