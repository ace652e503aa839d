//! The names a program declares, gathered from its syntax tree for the
//! editor's completions: structs with their fields, enums with their
//! variants, and constants with their types.

use vstd::prelude::*;
use crate::ast::ASTNode;
use crate::syntax::{NailDataTypeDescriptor, copy_type};

verus! {

/// What kind of name a declaration introduces.
pub enum SymbolType {
    Variable { data_type: NailDataTypeDescriptor },
    Struct { fields: Vec<(String, NailDataTypeDescriptor)> },
    Enum { variants: Vec<String> },
}

/// A declared name and what it is.
pub struct SymbolInfo {
    pub name: String,
    pub symbol_type: SymbolType,
}

/// The view of a symbol's kind: sequences in place of vectors.
pub enum SymbolKind {
    Variable(NailDataTypeDescriptor),
    Struct(Seq<(String, NailDataTypeDescriptor)>),
    Enum(Seq<String>),
}

/// The view of a symbol.
pub open spec fn symbol_view(s: SymbolInfo) -> (String, SymbolKind) {
    (s.name, match s.symbol_type {
        SymbolType::Variable { data_type } => SymbolKind::Variable(data_type),
        SymbolType::Struct { fields } => SymbolKind::Struct(fields@),
        SymbolType::Enum { variants } => SymbolKind::Enum(variants@),
    })
}

/// The views of a list of symbols.
pub open spec fn symbol_views(s: Seq<SymbolInfo>) -> Seq<(String, SymbolKind)> {
    s.map_values(|x: SymbolInfo| symbol_view(x))
}

/// The names and types of the field declarations among a struct's fields.
pub open spec fn field_pairs(fields: Seq<ASTNode>) -> Seq<(String, NailDataTypeDescriptor)>
    decreases fields.len(),
{
    if fields.len() == 0 {
        Seq::empty()
    } else {
        let front = field_pairs(fields.drop_last());
        match fields.last() {
            ASTNode::StructDeclarationField { name, data_type, .. } => front.push((name, data_type)),
            _ => front,
        }
    }
}

/// The names of the variants among an enum's variants.
pub open spec fn variant_names(variants: Seq<ASTNode>) -> Seq<String>
    decreases variants.len(),
{
    if variants.len() == 0 {
        Seq::empty()
    } else {
        let front = variant_names(variants.drop_last());
        match variants.last() {
            ASTNode::EnumVariant { variant, .. } => front.push(variant),
            _ => front,
        }
    }
}

/// What a node declares, in the order the declarations appear: a program's
/// statements, a function's body and an if statement's conditions and
/// branches are searched; other nodes declare nothing.
pub open spec fn declared(n: ASTNode) -> Seq<(String, SymbolKind)>
    decreases n,
{
    match n {
        ASTNode::Program { statements, .. } => declared_all(statements@),
        ASTNode::StructDeclaration { name, fields, .. } => seq![(name, SymbolKind::Struct(field_pairs(fields@)))],
        ASTNode::EnumDeclaration { name, variants, .. } => seq![(name, SymbolKind::Enum(variant_names(variants@)))],
        ASTNode::ConstDeclaration { name, data_type, .. } => seq![(name, SymbolKind::Variable(data_type))],
        ASTNode::FunctionDeclaration { body, .. } => declared(*body),
        ASTNode::IfStatement { condition_branches, else_branch, .. } => {
            declared_branches(condition_branches@) + match else_branch {
                Some(b) => declared(*b),
                None => Seq::empty(),
            }
        },
        _ => Seq::empty(),
    }
}

/// What a list of nodes declares, in order.
pub open spec fn declared_all(s: Seq<ASTNode>) -> Seq<(String, SymbolKind)>
    decreases s,
{
    if s.len() == 0 {
        Seq::empty()
    } else {
        declared_all(s.drop_last()) + declared(s.last())
    }
}

/// What a list of conditions and branches declares, in order.
pub open spec fn declared_branches(s: Seq<(Box<ASTNode>, Box<ASTNode>)>) -> Seq<(String, SymbolKind)>
    decreases s,
{
    if s.len() == 0 {
        Seq::empty()
    } else {
        declared_branches(s.drop_last()) + declared(*s.last().0) + declared(*s.last().1)
    }
}

proof fn lemma_views_append(a: Seq<SymbolInfo>, b: Seq<SymbolInfo>)
    ensures
        symbol_views(a + b) == symbol_views(a) + symbol_views(b),
{
    assert(symbol_views(a + b) =~= symbol_views(a) + symbol_views(b));
}

fn copy_name(s: &String) -> (r: String)
    ensures
        r == *s,
{
    s.clone()
}

/// The field declarations of a struct, as names and types.
fn struct_fields(fields: &Vec<ASTNode>) -> (r: Vec<(String, NailDataTypeDescriptor)>)
    ensures
        r@ == field_pairs(fields@),
{
    let mut out: Vec<(String, NailDataTypeDescriptor)> = Vec::new();
    let mut i: usize = 0;
    while i < fields.len()
        invariant
            i <= fields@.len(),
            out@ == field_pairs(fields@.take(i as int)),
        decreases fields.len() - i,
    {
        proof {
            assert(fields@.take(i + 1).drop_last() == fields@.take(i as int));
        }
        match &fields[i] {
            ASTNode::StructDeclarationField { name, data_type, .. } => {
                out.push((copy_name(name), copy_type(data_type)));
            },
            _ => {},
        }
        i = i + 1;
    }
    proof {
        assert(fields@.take(fields@.len() as int) == fields@);
    }
    out
}

/// The variant names of an enum.
fn enum_variants(variants: &Vec<ASTNode>) -> (r: Vec<String>)
    ensures
        r@ == variant_names(variants@),
{
    let mut out: Vec<String> = Vec::new();
    let mut i: usize = 0;
    while i < variants.len()
        invariant
            i <= variants@.len(),
            out@ == variant_names(variants@.take(i as int)),
        decreases variants.len() - i,
    {
        proof {
            assert(variants@.take(i + 1).drop_last() == variants@.take(i as int));
        }
        match &variants[i] {
            ASTNode::EnumVariant { variant, .. } => {
                out.push(copy_name(variant));
            },
            _ => {},
        }
        i = i + 1;
    }
    proof {
        assert(variants@.take(variants@.len() as int) == variants@);
    }
    out
}

/// The names a syntax tree declares, in the order they appear: structs with
/// their fields, enums with their variants, and constants with their types,
/// searched for through the program's statements, function bodies and the
/// conditions and branches of if statements.
pub fn extract_symbols_from_ast(ast: &ASTNode) -> (r: Vec<SymbolInfo>)
    ensures
        symbol_views(r@) == declared(*ast),
    decreases ast,
{
    let mut symbols: Vec<SymbolInfo> = Vec::new();
    match ast {
        ASTNode::Program { statements, .. } => {
            let mut i: usize = 0;
            while i < statements.len()
                invariant
                    i <= statements@.len(),
                    symbol_views(symbols@) == declared_all(statements@.take(i as int)),
                    *ast == (ASTNode::Program { statements: *statements, code_span: ast->Program_code_span, scope: ast->Program_scope }),
                decreases statements.len() - i,
            {
                proof {
                    assert(statements@.take(i + 1).drop_last() == statements@.take(i as int));
                    assert(decreases_to!(*ast => (*ast)->Program_statements));
                    assert(decreases_to!(*statements => statements@));
                    assert(decreases_to!(statements@ => statements@[i as int]));
                }
                let mut found = extract_symbols_from_ast(&statements[i]);
                proof {
                    lemma_views_append(symbols@, found@);
                }
                symbols.append(&mut found);
                i = i + 1;
            }
            proof {
                assert(statements@.take(statements@.len() as int) == statements@);
            }
        },
        ASTNode::StructDeclaration { name, fields, .. } => {
            symbols.push(SymbolInfo {
                name: copy_name(name),
                symbol_type: SymbolType::Struct { fields: struct_fields(fields) },
            });
            proof {
                assert(symbol_views(symbols@) =~= declared(*ast));
            }
        },
        ASTNode::EnumDeclaration { name, variants, .. } => {
            symbols.push(SymbolInfo {
                name: copy_name(name),
                symbol_type: SymbolType::Enum { variants: enum_variants(variants) },
            });
            proof {
                assert(symbol_views(symbols@) =~= declared(*ast));
            }
        },
        ASTNode::ConstDeclaration { name, data_type, .. } => {
            symbols.push(SymbolInfo {
                name: copy_name(name),
                symbol_type: SymbolType::Variable { data_type: copy_type(data_type) },
            });
            proof {
                assert(symbol_views(symbols@) =~= declared(*ast));
            }
        },
        ASTNode::FunctionDeclaration { body, .. } => {
            symbols = extract_symbols_from_ast(body);
        },
        ASTNode::IfStatement { condition_branches, else_branch, .. } => {
            let mut i: usize = 0;
            while i < condition_branches.len()
                invariant
                    i <= condition_branches@.len(),
                    symbol_views(symbols@) == declared_branches(condition_branches@.take(i as int)),
                    *ast == (ASTNode::IfStatement {
                        condition_branches: *condition_branches,
                        else_branch: *else_branch,
                        code_span: ast->IfStatement_code_span,
                        scope: ast->IfStatement_scope,
                    }),
                decreases condition_branches.len() - i,
            {
                proof {
                    assert(condition_branches@.take(i + 1).drop_last() == condition_branches@.take(i as int));
                    assert(decreases_to!(*ast => (*ast)->condition_branches));
                    assert(decreases_to!(*condition_branches => condition_branches@));
                    assert(decreases_to!(condition_branches@ => condition_branches@[i as int]));
                }
                let (condition, body) = &condition_branches[i];
                let mut from_condition = extract_symbols_from_ast(condition);
                let mut from_body = extract_symbols_from_ast(body);
                proof {
                    lemma_views_append(symbols@, from_condition@);
                    lemma_views_append(symbols@ + from_condition@, from_body@);
                }
                symbols.append(&mut from_condition);
                symbols.append(&mut from_body);
                i = i + 1;
            }
            proof {
                assert(condition_branches@.take(condition_branches@.len() as int) == condition_branches@);
            }
            match else_branch {
                Some(else_body) => {
                    let mut found = extract_symbols_from_ast(else_body);
                    proof {
                        lemma_views_append(symbols@, found@);
                    }
                    symbols.append(&mut found);
                },
                None => {
                    proof {
                        assert(symbols@ + Seq::<SymbolInfo>::empty() =~= symbols@);
                    }
                },
            }
        },
        _ => {
            proof {
                assert(symbol_views(symbols@) =~= Seq::<(String, SymbolKind)>::empty());
            }
        },
    }
    symbols
}

} // verus!
