//! The syntax tree the parser builds, and its mathematical view.

use vstd::prelude::*;
use crate::syntax::{CodeSpan, NailDataTypeDescriptor, Operation, no_span};

verus! {

/// A node of the syntax tree.
#[derive(Debug)]
pub enum ASTNode {
    Program { statements: Vec<ASTNode>, code_span: CodeSpan, scope: usize },
    FunctionDeclaration { name: String, params: Vec<(String, NailDataTypeDescriptor)>, data_type: NailDataTypeDescriptor, body: Box<ASTNode>, sandboxed: bool, code_span: CodeSpan, scope: usize },
    FunctionCall { name: String, args: Vec<ASTNode>, code_span: CodeSpan, scope: usize },
    ConstDeclaration { name: String, data_type: NailDataTypeDescriptor, value: Box<ASTNode>, sandboxed: bool, code_span: CodeSpan, scope: usize },
    IfStatement { condition_branches: Vec<(Box<ASTNode>, Box<ASTNode>)>, else_branch: Option<Box<ASTNode>>, code_span: CodeSpan, scope: usize },
    MapExpression { iterator: String, index_iterator: Option<String>, iterable: Box<ASTNode>, body: Box<ASTNode>, code_span: CodeSpan, scope: usize },
    FilterExpression { iterator: String, index_iterator: Option<String>, iterable: Box<ASTNode>, body: Box<ASTNode>, code_span: CodeSpan, scope: usize },
    ReduceExpression { accumulator: String, iterator: String, index_iterator: Option<String>, iterable: Box<ASTNode>, initial_value: Box<ASTNode>, body: Box<ASTNode>, code_span: CodeSpan, scope: usize },
    ScanExpression { accumulator: String, iterator: String, index_iterator: Option<String>, iterable: Box<ASTNode>, initial_value: Box<ASTNode>, body: Box<ASTNode>, code_span: CodeSpan, scope: usize },
    EachExpression { iterator: String, index_iterator: Option<String>, iterable: Box<ASTNode>, body: Box<ASTNode>, code_span: CodeSpan, scope: usize },
    FindExpression { iterator: String, index_iterator: Option<String>, iterable: Box<ASTNode>, body: Box<ASTNode>, code_span: CodeSpan, scope: usize },
    AllExpression { iterator: String, index_iterator: Option<String>, iterable: Box<ASTNode>, body: Box<ASTNode>, code_span: CodeSpan, scope: usize },
    AnyExpression { iterator: String, index_iterator: Option<String>, iterable: Box<ASTNode>, body: Box<ASTNode>, code_span: CodeSpan, scope: usize },
    Forever { body: Box<ASTNode>, code_span: CodeSpan, scope: usize },
    ParallelBlock { statements: Vec<ASTNode>, code_span: CodeSpan, scope: usize },
    ConcurrentBlock { statements: Vec<ASTNode>, code_span: CodeSpan, scope: usize },
    Block { statements: Vec<ASTNode>, code_span: CodeSpan, scope: usize },
    BinaryOperation { left: Box<ASTNode>, operator: Operation, right: Box<ASTNode>, code_span: CodeSpan, scope: usize },
    UnaryOperation { operator: Operation, operand: Box<ASTNode>, code_span: CodeSpan, scope: usize },
    StructDeclaration { name: String, fields: Vec<ASTNode>, code_span: CodeSpan, scope: usize },
    StructDeclarationField { name: String, data_type: NailDataTypeDescriptor, scope: usize },
    StructInstantiation { name: String, fields: Vec<ASTNode>, code_span: CodeSpan, scope: usize },
    StructInstantiationField { name: String, value: Box<ASTNode>, code_span: CodeSpan, scope: usize },
    StructFieldAccess { struct_name: String, field_name: String, code_span: CodeSpan, scope: usize },
    NestedFieldAccess { object: Box<ASTNode>, field_name: String, code_span: CodeSpan, scope: usize },
    EnumDeclaration { name: String, variants: Vec<ASTNode>, code_span: CodeSpan, scope: usize },
    EnumVariant { name: String, variant: String, code_span: CodeSpan, scope: usize },
    ArrayLiteral { elements: Vec<ASTNode>, code_span: CodeSpan, scope: usize },
    Identifier { name: String, code_span: CodeSpan, scope: usize },
    NumberLiteral { value: String, data_type: NailDataTypeDescriptor, code_span: CodeSpan, scope: usize },
    StringLiteral { value: String, code_span: CodeSpan, scope: usize },
    BooleanLiteral { value: bool, code_span: CodeSpan, scope: usize },
    ReturnDeclaration { statement: Box<ASTNode>, code_span: CodeSpan, scope: usize },
    YieldDeclaration { statement: Box<ASTNode>, code_span: CodeSpan, scope: usize },
}

/// The view of a syntax tree node: the same tree, with sequences in place of
/// vectors.
pub enum SNode {
    Program { statements: Seq<SNode>, code_span: CodeSpan, scope: usize },
    FunctionDeclaration { name: String, params: Seq<(String, NailDataTypeDescriptor)>, data_type: NailDataTypeDescriptor, body: Box<SNode>, sandboxed: bool, code_span: CodeSpan, scope: usize },
    FunctionCall { name: String, args: Seq<SNode>, code_span: CodeSpan, scope: usize },
    ConstDeclaration { name: String, data_type: NailDataTypeDescriptor, value: Box<SNode>, sandboxed: bool, code_span: CodeSpan, scope: usize },
    IfStatement { condition_branches: Seq<(SNode, SNode)>, else_branch: Option<Box<SNode>>, code_span: CodeSpan, scope: usize },
    MapExpression { iterator: String, index_iterator: Option<String>, iterable: Box<SNode>, body: Box<SNode>, code_span: CodeSpan, scope: usize },
    FilterExpression { iterator: String, index_iterator: Option<String>, iterable: Box<SNode>, body: Box<SNode>, code_span: CodeSpan, scope: usize },
    ReduceExpression { accumulator: String, iterator: String, index_iterator: Option<String>, iterable: Box<SNode>, initial_value: Box<SNode>, body: Box<SNode>, code_span: CodeSpan, scope: usize },
    ScanExpression { accumulator: String, iterator: String, index_iterator: Option<String>, iterable: Box<SNode>, initial_value: Box<SNode>, body: Box<SNode>, code_span: CodeSpan, scope: usize },
    EachExpression { iterator: String, index_iterator: Option<String>, iterable: Box<SNode>, body: Box<SNode>, code_span: CodeSpan, scope: usize },
    FindExpression { iterator: String, index_iterator: Option<String>, iterable: Box<SNode>, body: Box<SNode>, code_span: CodeSpan, scope: usize },
    AllExpression { iterator: String, index_iterator: Option<String>, iterable: Box<SNode>, body: Box<SNode>, code_span: CodeSpan, scope: usize },
    AnyExpression { iterator: String, index_iterator: Option<String>, iterable: Box<SNode>, body: Box<SNode>, code_span: CodeSpan, scope: usize },
    Forever { body: Box<SNode>, code_span: CodeSpan, scope: usize },
    ParallelBlock { statements: Seq<SNode>, code_span: CodeSpan, scope: usize },
    ConcurrentBlock { statements: Seq<SNode>, code_span: CodeSpan, scope: usize },
    Block { statements: Seq<SNode>, code_span: CodeSpan, scope: usize },
    BinaryOperation { left: Box<SNode>, operator: Operation, right: Box<SNode>, code_span: CodeSpan, scope: usize },
    UnaryOperation { operator: Operation, operand: Box<SNode>, code_span: CodeSpan, scope: usize },
    StructDeclaration { name: String, fields: Seq<SNode>, code_span: CodeSpan, scope: usize },
    StructDeclarationField { name: String, data_type: NailDataTypeDescriptor, scope: usize },
    StructInstantiation { name: String, fields: Seq<SNode>, code_span: CodeSpan, scope: usize },
    StructInstantiationField { name: String, value: Box<SNode>, code_span: CodeSpan, scope: usize },
    StructFieldAccess { struct_name: String, field_name: String, code_span: CodeSpan, scope: usize },
    NestedFieldAccess { object: Box<SNode>, field_name: String, code_span: CodeSpan, scope: usize },
    EnumDeclaration { name: String, variants: Seq<SNode>, code_span: CodeSpan, scope: usize },
    EnumVariant { name: String, variant: String, code_span: CodeSpan, scope: usize },
    ArrayLiteral { elements: Seq<SNode>, code_span: CodeSpan, scope: usize },
    Identifier { name: String, code_span: CodeSpan, scope: usize },
    NumberLiteral { value: String, data_type: NailDataTypeDescriptor, code_span: CodeSpan, scope: usize },
    StringLiteral { value: String, code_span: CodeSpan, scope: usize },
    BooleanLiteral { value: bool, code_span: CodeSpan, scope: usize },
    ReturnDeclaration { statement: Box<SNode>, code_span: CodeSpan, scope: usize },
    YieldDeclaration { statement: Box<SNode>, code_span: CodeSpan, scope: usize },
}

/// The view of a node.
pub open spec fn view_node(n: ASTNode) -> SNode
    decreases n,
{
    match n {
        ASTNode::Program { statements, code_span, scope } => SNode::Program { statements: view_nodes(statements@), code_span, scope },
        ASTNode::FunctionDeclaration { name, params, data_type, body, sandboxed, code_span, scope } => SNode::FunctionDeclaration { name, params: params@, data_type, body: Box::new(view_node(*body)), sandboxed, code_span, scope },
        ASTNode::FunctionCall { name, args, code_span, scope } => SNode::FunctionCall { name, args: view_nodes(args@), code_span, scope },
        ASTNode::ConstDeclaration { name, data_type, value, sandboxed, code_span, scope } => SNode::ConstDeclaration { name, data_type, value: Box::new(view_node(*value)), sandboxed, code_span, scope },
        ASTNode::IfStatement { condition_branches, else_branch, code_span, scope } => SNode::IfStatement { condition_branches: view_branches(condition_branches@), else_branch: match else_branch { Some(b) => Some(Box::new(view_node(*b))), None => None }, code_span, scope },
        ASTNode::MapExpression { iterator, index_iterator, iterable, body, code_span, scope } => SNode::MapExpression { iterator, index_iterator, iterable: Box::new(view_node(*iterable)), body: Box::new(view_node(*body)), code_span, scope },
        ASTNode::FilterExpression { iterator, index_iterator, iterable, body, code_span, scope } => SNode::FilterExpression { iterator, index_iterator, iterable: Box::new(view_node(*iterable)), body: Box::new(view_node(*body)), code_span, scope },
        ASTNode::ReduceExpression { accumulator, iterator, index_iterator, iterable, initial_value, body, code_span, scope } => SNode::ReduceExpression { accumulator, iterator, index_iterator, iterable: Box::new(view_node(*iterable)), initial_value: Box::new(view_node(*initial_value)), body: Box::new(view_node(*body)), code_span, scope },
        ASTNode::ScanExpression { accumulator, iterator, index_iterator, iterable, initial_value, body, code_span, scope } => SNode::ScanExpression { accumulator, iterator, index_iterator, iterable: Box::new(view_node(*iterable)), initial_value: Box::new(view_node(*initial_value)), body: Box::new(view_node(*body)), code_span, scope },
        ASTNode::EachExpression { iterator, index_iterator, iterable, body, code_span, scope } => SNode::EachExpression { iterator, index_iterator, iterable: Box::new(view_node(*iterable)), body: Box::new(view_node(*body)), code_span, scope },
        ASTNode::FindExpression { iterator, index_iterator, iterable, body, code_span, scope } => SNode::FindExpression { iterator, index_iterator, iterable: Box::new(view_node(*iterable)), body: Box::new(view_node(*body)), code_span, scope },
        ASTNode::AllExpression { iterator, index_iterator, iterable, body, code_span, scope } => SNode::AllExpression { iterator, index_iterator, iterable: Box::new(view_node(*iterable)), body: Box::new(view_node(*body)), code_span, scope },
        ASTNode::AnyExpression { iterator, index_iterator, iterable, body, code_span, scope } => SNode::AnyExpression { iterator, index_iterator, iterable: Box::new(view_node(*iterable)), body: Box::new(view_node(*body)), code_span, scope },
        ASTNode::Forever { body, code_span, scope } => SNode::Forever { body: Box::new(view_node(*body)), code_span, scope },
        ASTNode::ParallelBlock { statements, code_span, scope } => SNode::ParallelBlock { statements: view_nodes(statements@), code_span, scope },
        ASTNode::ConcurrentBlock { statements, code_span, scope } => SNode::ConcurrentBlock { statements: view_nodes(statements@), code_span, scope },
        ASTNode::Block { statements, code_span, scope } => SNode::Block { statements: view_nodes(statements@), code_span, scope },
        ASTNode::BinaryOperation { left, operator, right, code_span, scope } => SNode::BinaryOperation { left: Box::new(view_node(*left)), operator, right: Box::new(view_node(*right)), code_span, scope },
        ASTNode::UnaryOperation { operator, operand, code_span, scope } => SNode::UnaryOperation { operator, operand: Box::new(view_node(*operand)), code_span, scope },
        ASTNode::StructDeclaration { name, fields, code_span, scope } => SNode::StructDeclaration { name, fields: view_nodes(fields@), code_span, scope },
        ASTNode::StructDeclarationField { name, data_type, scope } => SNode::StructDeclarationField { name, data_type, scope },
        ASTNode::StructInstantiation { name, fields, code_span, scope } => SNode::StructInstantiation { name, fields: view_nodes(fields@), code_span, scope },
        ASTNode::StructInstantiationField { name, value, code_span, scope } => SNode::StructInstantiationField { name, value: Box::new(view_node(*value)), code_span, scope },
        ASTNode::StructFieldAccess { struct_name, field_name, code_span, scope } => SNode::StructFieldAccess { struct_name, field_name, code_span, scope },
        ASTNode::NestedFieldAccess { object, field_name, code_span, scope } => SNode::NestedFieldAccess { object: Box::new(view_node(*object)), field_name, code_span, scope },
        ASTNode::EnumDeclaration { name, variants, code_span, scope } => SNode::EnumDeclaration { name, variants: view_nodes(variants@), code_span, scope },
        ASTNode::EnumVariant { name, variant, code_span, scope } => SNode::EnumVariant { name, variant, code_span, scope },
        ASTNode::ArrayLiteral { elements, code_span, scope } => SNode::ArrayLiteral { elements: view_nodes(elements@), code_span, scope },
        ASTNode::Identifier { name, code_span, scope } => SNode::Identifier { name, code_span, scope },
        ASTNode::NumberLiteral { value, data_type, code_span, scope } => SNode::NumberLiteral { value, data_type, code_span, scope },
        ASTNode::StringLiteral { value, code_span, scope } => SNode::StringLiteral { value, code_span, scope },
        ASTNode::BooleanLiteral { value, code_span, scope } => SNode::BooleanLiteral { value, code_span, scope },
        ASTNode::ReturnDeclaration { statement, code_span, scope } => SNode::ReturnDeclaration { statement: Box::new(view_node(*statement)), code_span, scope },
        ASTNode::YieldDeclaration { statement, code_span, scope } => SNode::YieldDeclaration { statement: Box::new(view_node(*statement)), code_span, scope },
    }
}

/// The views of a list of nodes.
pub open spec fn view_nodes(s: Seq<ASTNode>) -> Seq<SNode>
    decreases s,
{
    if s.len() == 0 {
        Seq::empty()
    } else {
        view_nodes(s.drop_last()).push(view_node(s.last()))
    }
}

/// The views of a list of condition and branch pairs.
pub open spec fn view_branches(s: Seq<(Box<ASTNode>, Box<ASTNode>)>) -> Seq<(SNode, SNode)>
    decreases s,
{
    if s.len() == 0 {
        Seq::empty()
    } else {
        view_branches(s.drop_last()).push((view_node(*s.last().0), view_node(*s.last().1)))
    }
}

/// The views of a list have its length, element for element.
pub proof fn lemma_view_nodes(s: Seq<ASTNode>)
    ensures
        view_nodes(s).len() == s.len(),
        forall|i: int| 0 <= i < s.len() ==> #[trigger] view_nodes(s)[i] == view_node(s[i]),
    decreases s.len(),
{
    if s.len() > 0 {
        lemma_view_nodes(s.drop_last());
    }
}

/// Viewing a list with one more node adds that node's view at the end.
pub proof fn lemma_view_nodes_push(s: Seq<ASTNode>, n: ASTNode)
    ensures
        view_nodes(s.push(n)) == view_nodes(s).push(view_node(n)),
{
    assert(s.push(n).drop_last() =~= s);
}

/// The same for a list of condition and branch pairs.
pub proof fn lemma_view_branches_push(s: Seq<(Box<ASTNode>, Box<ASTNode>)>, c: ASTNode, b: ASTNode)
    ensures
        view_branches(s.push((Box::new(c), Box::new(b)))) == view_branches(s).push((view_node(c), view_node(b))),
{
    assert(s.push((Box::new(c), Box::new(b))).drop_last() =~= s);
}

/// Where a node sits in the source; a struct declaration's field carries no
/// span of its own.
pub open spec fn span_of(n: SNode) -> CodeSpan {
    match n {
        SNode::Program { code_span, .. } => code_span,
        SNode::FunctionDeclaration { code_span, .. } => code_span,
        SNode::FunctionCall { code_span, .. } => code_span,
        SNode::ConstDeclaration { code_span, .. } => code_span,
        SNode::IfStatement { code_span, .. } => code_span,
        SNode::MapExpression { code_span, .. } => code_span,
        SNode::FilterExpression { code_span, .. } => code_span,
        SNode::ReduceExpression { code_span, .. } => code_span,
        SNode::ScanExpression { code_span, .. } => code_span,
        SNode::EachExpression { code_span, .. } => code_span,
        SNode::FindExpression { code_span, .. } => code_span,
        SNode::AllExpression { code_span, .. } => code_span,
        SNode::AnyExpression { code_span, .. } => code_span,
        SNode::Forever { code_span, .. } => code_span,
        SNode::ParallelBlock { code_span, .. } => code_span,
        SNode::ConcurrentBlock { code_span, .. } => code_span,
        SNode::Block { code_span, .. } => code_span,
        SNode::BinaryOperation { code_span, .. } => code_span,
        SNode::UnaryOperation { code_span, .. } => code_span,
        SNode::StructDeclaration { code_span, .. } => code_span,
        SNode::StructDeclarationField { .. } => no_span(),
        SNode::StructInstantiation { code_span, .. } => code_span,
        SNode::StructInstantiationField { code_span, .. } => code_span,
        SNode::StructFieldAccess { code_span, .. } => code_span,
        SNode::NestedFieldAccess { code_span, .. } => code_span,
        SNode::EnumDeclaration { code_span, .. } => code_span,
        SNode::EnumVariant { code_span, .. } => code_span,
        SNode::ArrayLiteral { code_span, .. } => code_span,
        SNode::Identifier { code_span, .. } => code_span,
        SNode::NumberLiteral { code_span, .. } => code_span,
        SNode::StringLiteral { code_span, .. } => code_span,
        SNode::BooleanLiteral { code_span, .. } => code_span,
        SNode::ReturnDeclaration { code_span, .. } => code_span,
        SNode::YieldDeclaration { code_span, .. } => code_span,
    }
}

/// The children of a node that are themselves nodes, in the order the tree
/// lists them: statements, arguments, operands, branches, bodies.
pub open spec fn kids(n: SNode) -> Seq<SNode> {
    match n {
        SNode::Program { statements, .. } => statements,
        SNode::Block { statements, .. } => statements,
        SNode::ParallelBlock { statements, .. } => statements,
        SNode::ConcurrentBlock { statements, .. } => statements,
        SNode::FunctionDeclaration { body, .. } => seq![*body],
        SNode::FunctionCall { args, .. } => args,
        SNode::ConstDeclaration { value, .. } => seq![*value],
        SNode::IfStatement { condition_branches, else_branch, .. } => branch_kids(condition_branches) + match else_branch {
            Some(b) => seq![*b],
            None => Seq::empty(),
        },
        SNode::MapExpression { iterable, body, .. } => seq![*iterable, *body],
        SNode::FilterExpression { iterable, body, .. } => seq![*iterable, *body],
        SNode::EachExpression { iterable, body, .. } => seq![*iterable, *body],
        SNode::FindExpression { iterable, body, .. } => seq![*iterable, *body],
        SNode::AllExpression { iterable, body, .. } => seq![*iterable, *body],
        SNode::AnyExpression { iterable, body, .. } => seq![*iterable, *body],
        SNode::ReduceExpression { iterable, initial_value, body, .. } => seq![*iterable, *initial_value, *body],
        SNode::ScanExpression { iterable, initial_value, body, .. } => seq![*iterable, *initial_value, *body],
        SNode::Forever { body, .. } => seq![*body],
        SNode::BinaryOperation { left, right, .. } => seq![*left, *right],
        SNode::UnaryOperation { operand, .. } => seq![*operand],
        SNode::StructDeclaration { fields, .. } => fields,
        SNode::StructInstantiation { fields, .. } => fields,
        SNode::EnumDeclaration { variants, .. } => variants,
        SNode::StructInstantiationField { value, .. } => seq![*value],
        SNode::NestedFieldAccess { object, .. } => seq![*object],
        SNode::ArrayLiteral { elements, .. } => elements,
        SNode::ReturnDeclaration { statement, .. } => seq![*statement],
        SNode::YieldDeclaration { statement, .. } => seq![*statement],
        _ => Seq::empty(),
    }
}

/// The conditions and branches of an if, condition before branch.
pub open spec fn branch_kids(bs: Seq<(SNode, SNode)>) -> Seq<SNode>
    decreases bs.len(),
{
    if bs.len() == 0 {
        Seq::empty()
    } else {
        branch_kids(bs.drop_last()) + seq![bs.last().0, bs.last().1]
    }
}

/// The first of two optional results that is there.
pub open spec fn first_some(a: Option<CodeSpan>, b: Option<CodeSpan>) -> Option<CodeSpan> {
    match a {
        Some(x) => Some(x),
        None => b,
    }
}

/// The span of the first node deeper than `MAX_AST_DEPTH`, for a node at
/// depth `depth`, walking the node before its children and each node's
/// children from the last to the first.
pub open spec fn first_deep(n: SNode, depth: nat) -> Option<CodeSpan>
    decreases n,
{
    if depth > 512 {
        Some(span_of(n))
    } else {
        match n {
            SNode::Program { statements, .. } => first_deep_list(statements, depth + 1),
            SNode::Block { statements, .. } => first_deep_list(statements, depth + 1),
            SNode::ParallelBlock { statements, .. } => first_deep_list(statements, depth + 1),
            SNode::ConcurrentBlock { statements, .. } => first_deep_list(statements, depth + 1),
            SNode::FunctionDeclaration { body, .. } => first_deep(*body, depth + 1),
            SNode::FunctionCall { args, .. } => first_deep_list(args, depth + 1),
            SNode::ConstDeclaration { value, .. } => first_deep(*value, depth + 1),
            SNode::IfStatement { condition_branches, else_branch, .. } => match else_branch {
                Some(b) => first_some(first_deep(*b, depth + 1), first_deep_branches(condition_branches, depth + 1)),
                None => first_deep_branches(condition_branches, depth + 1),
            },
            SNode::MapExpression { iterable, body, .. } => first_some(first_deep(*body, depth + 1), first_deep(*iterable, depth + 1)),
            SNode::FilterExpression { iterable, body, .. } => first_some(first_deep(*body, depth + 1), first_deep(*iterable, depth + 1)),
            SNode::EachExpression { iterable, body, .. } => first_some(first_deep(*body, depth + 1), first_deep(*iterable, depth + 1)),
            SNode::FindExpression { iterable, body, .. } => first_some(first_deep(*body, depth + 1), first_deep(*iterable, depth + 1)),
            SNode::AllExpression { iterable, body, .. } => first_some(first_deep(*body, depth + 1), first_deep(*iterable, depth + 1)),
            SNode::AnyExpression { iterable, body, .. } => first_some(first_deep(*body, depth + 1), first_deep(*iterable, depth + 1)),
            SNode::ReduceExpression { iterable, initial_value, body, .. } => first_some(
                first_deep(*body, depth + 1),
                first_some(first_deep(*initial_value, depth + 1), first_deep(*iterable, depth + 1)),
            ),
            SNode::ScanExpression { iterable, initial_value, body, .. } => first_some(
                first_deep(*body, depth + 1),
                first_some(first_deep(*initial_value, depth + 1), first_deep(*iterable, depth + 1)),
            ),
            SNode::Forever { body, .. } => first_deep(*body, depth + 1),
            SNode::BinaryOperation { left, right, .. } => first_some(first_deep(*right, depth + 1), first_deep(*left, depth + 1)),
            SNode::UnaryOperation { operand, .. } => first_deep(*operand, depth + 1),
            SNode::StructDeclaration { fields, .. } => first_deep_list(fields, depth + 1),
            SNode::StructInstantiation { fields, .. } => first_deep_list(fields, depth + 1),
            SNode::EnumDeclaration { variants, .. } => first_deep_list(variants, depth + 1),
            SNode::StructInstantiationField { value, .. } => first_deep(*value, depth + 1),
            SNode::NestedFieldAccess { object, .. } => first_deep(*object, depth + 1),
            SNode::ArrayLiteral { elements, .. } => first_deep_list(elements, depth + 1),
            SNode::ReturnDeclaration { statement, .. } => first_deep(*statement, depth + 1),
            SNode::YieldDeclaration { statement, .. } => first_deep(*statement, depth + 1),
            _ => None,
        }
    }
}

/// `first_deep` over a list of nodes at one depth, from the last to the first.
pub open spec fn first_deep_list(ns: Seq<SNode>, depth: nat) -> Option<CodeSpan>
    decreases ns,
{
    if ns.len() == 0 {
        None
    } else {
        first_some(first_deep(ns.last(), depth), first_deep_list(ns.drop_last(), depth))
    }
}

/// `first_deep` over the branches of an if, from the last branch to the
/// first, each branch before its condition.
pub open spec fn first_deep_branches(bs: Seq<(SNode, SNode)>, depth: nat) -> Option<CodeSpan>
    decreases bs,
{
    if bs.len() == 0 {
        None
    } else {
        first_some(first_deep(bs.last().1, depth), first_some(first_deep(bs.last().0, depth), first_deep_branches(bs.drop_last(), depth)))
    }
}

/// How many edges the longest path down from a node has.
pub open spec fn height(n: SNode) -> nat
    decreases n,
{
    match n {
        SNode::Program { statements, .. } => height_list(statements),
        SNode::Block { statements, .. } => height_list(statements),
        SNode::ParallelBlock { statements, .. } => height_list(statements),
        SNode::ConcurrentBlock { statements, .. } => height_list(statements),
        SNode::FunctionDeclaration { body, .. } => 1 + height(*body),
        SNode::FunctionCall { args, .. } => height_list(args),
        SNode::ConstDeclaration { value, .. } => 1 + height(*value),
        SNode::IfStatement { condition_branches, else_branch, .. } => match else_branch {
            Some(b) => max_nat(1 + height(*b), height_branches(condition_branches)),
            None => height_branches(condition_branches),
        },
        SNode::MapExpression { iterable, body, .. } => 1 + max_nat(height(*iterable), height(*body)),
        SNode::FilterExpression { iterable, body, .. } => 1 + max_nat(height(*iterable), height(*body)),
        SNode::EachExpression { iterable, body, .. } => 1 + max_nat(height(*iterable), height(*body)),
        SNode::FindExpression { iterable, body, .. } => 1 + max_nat(height(*iterable), height(*body)),
        SNode::AllExpression { iterable, body, .. } => 1 + max_nat(height(*iterable), height(*body)),
        SNode::AnyExpression { iterable, body, .. } => 1 + max_nat(height(*iterable), height(*body)),
        SNode::ReduceExpression { iterable, initial_value, body, .. } => 1 + max_nat(height(*iterable), max_nat(height(*initial_value), height(*body))),
        SNode::ScanExpression { iterable, initial_value, body, .. } => 1 + max_nat(height(*iterable), max_nat(height(*initial_value), height(*body))),
        SNode::Forever { body, .. } => 1 + height(*body),
        SNode::BinaryOperation { left, right, .. } => 1 + max_nat(height(*left), height(*right)),
        SNode::UnaryOperation { operand, .. } => 1 + height(*operand),
        SNode::StructDeclaration { fields, .. } => height_list(fields),
        SNode::StructInstantiation { fields, .. } => height_list(fields),
        SNode::EnumDeclaration { variants, .. } => height_list(variants),
        SNode::StructInstantiationField { value, .. } => 1 + height(*value),
        SNode::NestedFieldAccess { object, .. } => 1 + height(*object),
        SNode::ArrayLiteral { elements, .. } => height_list(elements),
        SNode::ReturnDeclaration { statement, .. } => 1 + height(*statement),
        SNode::YieldDeclaration { statement, .. } => 1 + height(*statement),
        _ => 0,
    }
}

/// The larger of two numbers.
pub open spec fn max_nat(a: nat, b: nat) -> nat {
    if a >= b { a } else { b }
}

/// One more than the greatest height in a list, or 0 for an empty list: the
/// height of a node whose children are the list.
pub open spec fn height_list(ns: Seq<SNode>) -> nat
    decreases ns,
{
    if ns.len() == 0 {
        0
    } else {
        max_nat(1 + height(ns.last()), height_list(ns.drop_last()))
    }
}

/// The same for the conditions and branches of an if.
pub open spec fn height_branches(bs: Seq<(SNode, SNode)>) -> nat
    decreases bs,
{
    if bs.len() == 0 {
        0
    } else {
        max_nat(1 + max_nat(height(bs.last().0), height(bs.last().1)), height_branches(bs.drop_last()))
    }
}

/// How many nodes a tree has.
pub open spec fn size(n: SNode) -> nat
    decreases n,
{
    1 + match n {
        SNode::Program { statements, .. } => size_list(statements),
        SNode::Block { statements, .. } => size_list(statements),
        SNode::ParallelBlock { statements, .. } => size_list(statements),
        SNode::ConcurrentBlock { statements, .. } => size_list(statements),
        SNode::FunctionDeclaration { body, .. } => size(*body),
        SNode::FunctionCall { args, .. } => size_list(args),
        SNode::ConstDeclaration { value, .. } => size(*value),
        SNode::IfStatement { condition_branches, else_branch, .. } => size_branches(condition_branches) + match else_branch {
            Some(b) => size(*b),
            None => 0,
        },
        SNode::MapExpression { iterable, body, .. } => size(*iterable) + size(*body),
        SNode::FilterExpression { iterable, body, .. } => size(*iterable) + size(*body),
        SNode::EachExpression { iterable, body, .. } => size(*iterable) + size(*body),
        SNode::FindExpression { iterable, body, .. } => size(*iterable) + size(*body),
        SNode::AllExpression { iterable, body, .. } => size(*iterable) + size(*body),
        SNode::AnyExpression { iterable, body, .. } => size(*iterable) + size(*body),
        SNode::ReduceExpression { iterable, initial_value, body, .. } => size(*iterable) + size(*initial_value) + size(*body),
        SNode::ScanExpression { iterable, initial_value, body, .. } => size(*iterable) + size(*initial_value) + size(*body),
        SNode::Forever { body, .. } => size(*body),
        SNode::BinaryOperation { left, right, .. } => size(*left) + size(*right),
        SNode::UnaryOperation { operand, .. } => size(*operand),
        SNode::StructDeclaration { fields, .. } => size_list(fields),
        SNode::StructInstantiation { fields, .. } => size_list(fields),
        SNode::EnumDeclaration { variants, .. } => size_list(variants),
        SNode::StructInstantiationField { value, .. } => size(*value),
        SNode::NestedFieldAccess { object, .. } => size(*object),
        SNode::ArrayLiteral { elements, .. } => size_list(elements),
        SNode::ReturnDeclaration { statement, .. } => size(*statement),
        SNode::YieldDeclaration { statement, .. } => size(*statement),
        _ => 0,
    }
}

/// How many nodes a list of trees has.
pub open spec fn size_list(ns: Seq<SNode>) -> nat
    decreases ns,
{
    if ns.len() == 0 {
        0
    } else {
        size(ns.last()) + size_list(ns.drop_last())
    }
}

/// How many nodes the conditions and branches of an if have.
pub open spec fn size_branches(bs: Seq<(SNode, SNode)>) -> nat
    decreases bs,
{
    if bs.len() == 0 {
        0
    } else {
        size(bs.last().0) + size(bs.last().1) + size_branches(bs.drop_last())
    }
}

/// `first_deep_list` over two lists one after the other: the second list
/// is walked first.
pub proof fn lemma_first_deep_list_append(a: Seq<SNode>, b: Seq<SNode>, depth: nat)
    ensures
        first_deep_list(a + b, depth) == first_some(first_deep_list(b, depth), first_deep_list(a, depth)),
        size_list(a + b) == size_list(a) + size_list(b),
    decreases b.len(),
{
    if b.len() == 0 {
        assert(a + b =~= a);
    } else {
        assert((a + b).drop_last() =~= a + b.drop_last());
        assert((a + b).last() == b.last());
        lemma_first_deep_list_append(a, b.drop_last(), depth);
    }
}

/// A list of one node is walked as that node.
pub proof fn lemma_list_one(x: SNode, depth: nat)
    ensures
        first_deep_list(seq![x], depth) == first_deep(x, depth),
        size_list(seq![x]) == size(x),
{
    let e = seq![x].drop_last();
    assert(e =~= Seq::<SNode>::empty());
    assert(first_deep_list(e, depth) == None::<CodeSpan>);
    assert(size_list(e) == 0);
    assert(seq![x].last() == x);
}

/// A list of two nodes is walked last node first.
pub proof fn lemma_list_two(x: SNode, y: SNode, depth: nat)
    ensures
        first_deep_list(seq![x, y], depth) == first_some(first_deep(y, depth), first_deep(x, depth)),
        size_list(seq![x, y]) == size(x) + size(y),
{
    assert(seq![x, y].drop_last() =~= seq![x]);
    lemma_list_one(x, depth);
}

/// A list of three nodes is walked last node first.
pub proof fn lemma_list_three(x: SNode, y: SNode, z: SNode, depth: nat)
    ensures
        first_deep_list(seq![x, y, z], depth) == first_some(first_deep(z, depth), first_some(first_deep(y, depth), first_deep(x, depth))),
        size_list(seq![x, y, z]) == size(x) + size(y) + size(z),
{
    assert(seq![x, y, z].drop_last() =~= seq![x, y]);
    lemma_list_two(x, y, depth);
}

/// The conditions and branches of an if, walked as a list.
pub proof fn lemma_branch_kids(bs: Seq<(SNode, SNode)>, depth: nat)
    ensures
        first_deep_list(branch_kids(bs), depth) == first_deep_branches(bs, depth),
        size_list(branch_kids(bs)) == size_branches(bs),
    decreases bs.len(),
{
    if bs.len() > 0 {
        let l = bs.last();
        lemma_branch_kids(bs.drop_last(), depth);
        lemma_first_deep_list_append(branch_kids(bs.drop_last()), seq![l.0, l.1], depth);
        lemma_list_two(l.0, l.1, depth);
    }
}

/// Walking a node below the limit is walking its children, one level down;
/// a node has one more node than its children.
pub proof fn lemma_first_deep_kids(n: SNode, depth: nat)
    ensures
        depth <= 512 ==> first_deep(n, depth) == first_deep_list(kids(n), depth + 1),
        size(n) == 1 + size_list(kids(n)),
{
    let d = depth + 1;
    match n {
        SNode::FunctionDeclaration { body, .. } => lemma_list_one(*body, d),
        SNode::ConstDeclaration { value, .. } => lemma_list_one(*value, d),
        SNode::IfStatement { condition_branches, else_branch, .. } => {
            lemma_branch_kids(condition_branches, d);
            match else_branch {
                Some(b) => {
                    lemma_first_deep_list_append(branch_kids(condition_branches), seq![*b], d);
                    lemma_list_one(*b, d);
                },
                None => {
                    assert(branch_kids(condition_branches) + Seq::<SNode>::empty() =~= branch_kids(condition_branches));
                },
            }
        },
        SNode::MapExpression { iterable, body, .. } => lemma_list_two(*iterable, *body, d),
        SNode::FilterExpression { iterable, body, .. } => lemma_list_two(*iterable, *body, d),
        SNode::EachExpression { iterable, body, .. } => lemma_list_two(*iterable, *body, d),
        SNode::FindExpression { iterable, body, .. } => lemma_list_two(*iterable, *body, d),
        SNode::AllExpression { iterable, body, .. } => lemma_list_two(*iterable, *body, d),
        SNode::AnyExpression { iterable, body, .. } => lemma_list_two(*iterable, *body, d),
        SNode::ReduceExpression { iterable, initial_value, body, .. } => lemma_list_three(*iterable, *initial_value, *body, d),
        SNode::ScanExpression { iterable, initial_value, body, .. } => lemma_list_three(*iterable, *initial_value, *body, d),
        SNode::Forever { body, .. } => lemma_list_one(*body, d),
        SNode::BinaryOperation { left, right, .. } => lemma_list_two(*left, *right, d),
        SNode::UnaryOperation { operand, .. } => lemma_list_one(*operand, d),
        SNode::StructInstantiationField { value, .. } => lemma_list_one(*value, d),
        SNode::NestedFieldAccess { object, .. } => lemma_list_one(*object, d),
        SNode::ReturnDeclaration { statement, .. } => lemma_list_one(*statement, d),
        SNode::YieldDeclaration { statement, .. } => lemma_list_one(*statement, d),
        _ => {},
    }
}

/// A walk that finds no node past the limit has walked a tree whose deepest
/// node is within it.
pub proof fn lemma_first_deep_height(n: SNode, depth: nat)
    requires
        first_deep(n, depth) is None,
    ensures
        depth + height(n) <= 512,
    decreases n,
{
    match n {
        SNode::Program { statements, .. } => lemma_first_deep_height_list(statements, depth + 1),
        SNode::Block { statements, .. } => lemma_first_deep_height_list(statements, depth + 1),
        SNode::ParallelBlock { statements, .. } => lemma_first_deep_height_list(statements, depth + 1),
        SNode::ConcurrentBlock { statements, .. } => lemma_first_deep_height_list(statements, depth + 1),
        SNode::FunctionDeclaration { body, .. } => lemma_first_deep_height(*body, depth + 1),
        SNode::FunctionCall { args, .. } => lemma_first_deep_height_list(args, depth + 1),
        SNode::ConstDeclaration { value, .. } => lemma_first_deep_height(*value, depth + 1),
        SNode::IfStatement { condition_branches, else_branch, .. } => {
            lemma_first_deep_height_branches(condition_branches, depth + 1);
            match else_branch {
                Some(b) => lemma_first_deep_height(*b, depth + 1),
                None => {},
            }
        },
        SNode::MapExpression { iterable, body, .. } | SNode::FilterExpression { iterable, body, .. }
        | SNode::EachExpression { iterable, body, .. } | SNode::FindExpression { iterable, body, .. }
        | SNode::AllExpression { iterable, body, .. } | SNode::AnyExpression { iterable, body, .. } => {
            lemma_first_deep_height(*iterable, depth + 1);
            lemma_first_deep_height(*body, depth + 1);
        },
        SNode::ReduceExpression { iterable, initial_value, body, .. } | SNode::ScanExpression { iterable, initial_value, body, .. } => {
            lemma_first_deep_height(*iterable, depth + 1);
            lemma_first_deep_height(*initial_value, depth + 1);
            lemma_first_deep_height(*body, depth + 1);
        },
        SNode::Forever { body, .. } => lemma_first_deep_height(*body, depth + 1),
        SNode::BinaryOperation { left, right, .. } => {
            lemma_first_deep_height(*left, depth + 1);
            lemma_first_deep_height(*right, depth + 1);
        },
        SNode::UnaryOperation { operand, .. } => lemma_first_deep_height(*operand, depth + 1),
        SNode::StructDeclaration { fields, .. } => lemma_first_deep_height_list(fields, depth + 1),
        SNode::StructInstantiation { fields, .. } => lemma_first_deep_height_list(fields, depth + 1),
        SNode::EnumDeclaration { variants, .. } => lemma_first_deep_height_list(variants, depth + 1),
        SNode::StructInstantiationField { value, .. } => lemma_first_deep_height(*value, depth + 1),
        SNode::NestedFieldAccess { object, .. } => lemma_first_deep_height(*object, depth + 1),
        SNode::ArrayLiteral { elements, .. } => lemma_first_deep_height_list(elements, depth + 1),
        SNode::ReturnDeclaration { statement, .. } => lemma_first_deep_height(*statement, depth + 1),
        SNode::YieldDeclaration { statement, .. } => lemma_first_deep_height(*statement, depth + 1),
        _ => {},
    }
}

/// The same for a list of nodes one level below a parent at `depth - 1`.
pub proof fn lemma_first_deep_height_list(ns: Seq<SNode>, depth: nat)
    requires
        first_deep_list(ns, depth) is None,
        1 <= depth <= 513,
    ensures
        depth - 1 + height_list(ns) <= 512,
    decreases ns,
{
    if ns.len() > 0 {
        assert(first_deep(ns.last(), depth) is None);
        assert(first_deep_list(ns.drop_last(), depth) is None);
        lemma_first_deep_height(ns.last(), depth);
        lemma_first_deep_height_list(ns.drop_last(), depth);
        assert(height_list(ns) == max_nat(1 + height(ns.last()), height_list(ns.drop_last())));
    }
}

/// The same for the conditions and branches of an if.
pub proof fn lemma_first_deep_height_branches(bs: Seq<(SNode, SNode)>, depth: nat)
    requires
        first_deep_branches(bs, depth) is None,
        1 <= depth <= 513,
    ensures
        depth - 1 + height_branches(bs) <= 512,
    decreases bs,
{
    if bs.len() > 0 {
        assert(first_deep(bs.last().1, depth) is None);
        assert(first_deep(bs.last().0, depth) is None);
        assert(first_deep_branches(bs.drop_last(), depth) is None);
        lemma_first_deep_height(bs.last().0, depth);
        lemma_first_deep_height(bs.last().1, depth);
        lemma_first_deep_height_branches(bs.drop_last(), depth);
        assert(height_branches(bs) == max_nat(1 + max_nat(height(bs.last().0), height(bs.last().1)), height_branches(bs.drop_last())));
    }
}

/// The views of the nodes a list of references points to.
pub open spec fn ref_views<'a>(r: Seq<&'a ASTNode>) -> Seq<SNode> {
    Seq::new(r.len(), |i: int| view_node(*r[i]))
}

/// Each pair of a list of condition and branch pairs, viewed.
pub proof fn lemma_view_branches(s: Seq<(Box<ASTNode>, Box<ASTNode>)>)
    ensures
        view_branches(s).len() == s.len(),
        forall|i: int| 0 <= i < s.len() ==> #[trigger] view_branches(s)[i] == (view_node(*s[i].0), view_node(*s[i].1)),
    decreases s.len(),
{
    if s.len() > 0 {
        lemma_view_branches(s.drop_last());
    }
}

/// The conditions and branches of an if, one after the other.
pub proof fn lemma_branch_kids_index(bs: Seq<(SNode, SNode)>)
    ensures
        branch_kids(bs).len() == 2 * bs.len(),
        forall|i: int| 0 <= i < bs.len() ==> #[trigger] branch_kids(bs)[2 * i] == bs[i].0 && branch_kids(bs)[2 * i + 1] == bs[i].1,
    decreases bs.len(),
{
    if bs.len() > 0 {
        let front = bs.drop_last();
        lemma_branch_kids_index(front);
        let l = bs.last();
        assert(branch_kids(bs) == branch_kids(front) + seq![l.0, l.1]);
        assert forall|i: int| 0 <= i < bs.len() implies #[trigger] branch_kids(bs)[2 * i] == bs[i].0 && branch_kids(bs)[2 * i + 1] == bs[i].1 by {
            if i < front.len() {
                assert(front[i] == bs[i]);
                assert(branch_kids(front)[2 * i] == front[i].0);
            }
        }
    }
}

/// A list holding one reference.
fn one_ref<'a>(node: &'a Box<ASTNode>) -> (r: Vec<&'a ASTNode>)
    ensures
        ref_views(r@) == seq![view_node(**node)],
{
    let mut out: Vec<&'a ASTNode> = Vec::new();
    out.push(&**node);
    proof { assert(ref_views(out@) =~= seq![view_node(**node)]); }
    out
}

/// References to each node of a list, in order.
fn refs_of<'a>(nodes: &'a Vec<ASTNode>) -> (r: Vec<&'a ASTNode>)
    ensures
        ref_views(r@) == view_nodes(nodes@),
{
    let mut out: Vec<&'a ASTNode> = Vec::new();
    let mut i: usize = 0;
    proof { lemma_view_nodes(nodes@); }
    while i < nodes.len()
        invariant
            i <= nodes@.len(),
            out@.len() == i,
            view_nodes(nodes@).len() == nodes@.len(),
            forall|j: int| 0 <= j < nodes@.len() ==> #[trigger] view_nodes(nodes@)[j] == view_node(nodes@[j]),
            forall|j: int| 0 <= j < i ==> view_node(*out@[j]) == view_node(nodes@[j]),
        decreases nodes@.len() - i,
    {
        out.push(&nodes[i]);
        i = i + 1;
    }
    proof { assert(ref_views(out@) =~= view_nodes(nodes@)); }
    out
}

impl ASTNode {
    /// Where the node sits in the source.
    pub fn code_span(&self) -> (r: CodeSpan)
        ensures
            r == span_of(view_node(*self)),
    {
        match self {
            ASTNode::Program { code_span, .. } => *code_span,
            ASTNode::FunctionDeclaration { code_span, .. } => *code_span,
            ASTNode::FunctionCall { code_span, .. } => *code_span,
            ASTNode::ConstDeclaration { code_span, .. } => *code_span,
            ASTNode::IfStatement { code_span, .. } => *code_span,
            ASTNode::MapExpression { code_span, .. } => *code_span,
            ASTNode::FilterExpression { code_span, .. } => *code_span,
            ASTNode::ReduceExpression { code_span, .. } => *code_span,
            ASTNode::ScanExpression { code_span, .. } => *code_span,
            ASTNode::EachExpression { code_span, .. } => *code_span,
            ASTNode::FindExpression { code_span, .. } => *code_span,
            ASTNode::AllExpression { code_span, .. } => *code_span,
            ASTNode::AnyExpression { code_span, .. } => *code_span,
            ASTNode::Forever { code_span, .. } => *code_span,
            ASTNode::ParallelBlock { code_span, .. } => *code_span,
            ASTNode::ConcurrentBlock { code_span, .. } => *code_span,
            ASTNode::Block { code_span, .. } => *code_span,
            ASTNode::BinaryOperation { code_span, .. } => *code_span,
            ASTNode::UnaryOperation { code_span, .. } => *code_span,
            ASTNode::StructDeclaration { code_span, .. } => *code_span,
            ASTNode::StructDeclarationField { .. } => CodeSpan::default(),
            ASTNode::StructInstantiation { code_span, .. } => *code_span,
            ASTNode::StructInstantiationField { code_span, .. } => *code_span,
            ASTNode::StructFieldAccess { code_span, .. } => *code_span,
            ASTNode::NestedFieldAccess { code_span, .. } => *code_span,
            ASTNode::EnumDeclaration { code_span, .. } => *code_span,
            ASTNode::EnumVariant { code_span, .. } => *code_span,
            ASTNode::ArrayLiteral { code_span, .. } => *code_span,
            ASTNode::Identifier { code_span, .. } => *code_span,
            ASTNode::NumberLiteral { code_span, .. } => *code_span,
            ASTNode::StringLiteral { code_span, .. } => *code_span,
            ASTNode::BooleanLiteral { code_span, .. } => *code_span,
            ASTNode::ReturnDeclaration { code_span, .. } => *code_span,
            ASTNode::YieldDeclaration { code_span, .. } => *code_span,
        }
    }

    /// Every direct child node, for walks over the whole tree. Names that
    /// a node binds (iterators, parameters) are text, not nodes, and are not
    /// among them.
    pub fn children(&self) -> (r: Vec<&ASTNode>)
        ensures
            ref_views(r@) == kids(view_node(*self)),
    {
        match self {
            ASTNode::Program { statements, .. } | ASTNode::Block { statements, .. } | ASTNode::ParallelBlock { statements, .. }
            | ASTNode::ConcurrentBlock { statements, .. } => refs_of(statements),
            ASTNode::FunctionDeclaration { body, .. } => one_ref(body),
            ASTNode::FunctionCall { args, .. } => refs_of(args),
            ASTNode::ConstDeclaration { value, .. } => one_ref(value),
            ASTNode::IfStatement { condition_branches, else_branch, .. } => {
                let mut children: Vec<&ASTNode> = Vec::new();
                let ghost vb = view_branches(condition_branches@);
                proof {
                    lemma_view_branches(condition_branches@);
                    lemma_branch_kids_index(vb);
                }
                let mut i: usize = 0;
                while i < condition_branches.len()
                    invariant
                        i <= condition_branches@.len(),
                        vb == view_branches(condition_branches@),
                        vb.len() == condition_branches@.len(),
                        branch_kids(vb).len() == 2 * vb.len(),
                        forall|j: int| 0 <= j < vb.len() ==> #[trigger] branch_kids(vb)[2 * j] == vb[j].0 && branch_kids(vb)[2 * j + 1] == vb[j].1,
                        forall|j: int| 0 <= j < condition_branches@.len() ==> #[trigger] vb[j] == (view_node(*condition_branches@[j].0), view_node(*condition_branches@[j].1)),
                        children@.len() == 2 * i,
                        forall|j: int| 0 <= j < 2 * i ==> view_node(*children@[j]) == branch_kids(vb)[j],
                    decreases condition_branches@.len() - i,
                {
                    let (condition, branch) = &condition_branches[i];
                    children.push(&**condition);
                    children.push(&**branch);
                    proof {
                        assert(branch_kids(vb)[2 * i] == vb[i as int].0);
                        assert(forall|j: int| 2 * i <= j < 2 * i + 2 ==> view_node(*children@[j]) == branch_kids(vb)[j]);
                    }
                    i = i + 1;
                }
                match else_branch {
                    Some(b) => children.push(&**b),
                    None => {},
                }
                proof { assert(ref_views(children@) =~= kids(view_node(*self))); }
                children
            },
            ASTNode::MapExpression { iterable, body, .. } | ASTNode::FilterExpression { iterable, body, .. }
            | ASTNode::EachExpression { iterable, body, .. } | ASTNode::FindExpression { iterable, body, .. }
            | ASTNode::AllExpression { iterable, body, .. } | ASTNode::AnyExpression { iterable, body, .. } => {
                let mut children: Vec<&ASTNode> = Vec::new();
                children.push(&**iterable);
                children.push(&**body);
                proof { assert(ref_views(children@) =~= kids(view_node(*self))); }
                children
            },
            ASTNode::ReduceExpression { iterable, initial_value, body, .. } | ASTNode::ScanExpression { iterable, initial_value, body, .. } => {
                let mut children: Vec<&ASTNode> = Vec::new();
                children.push(&**iterable);
                children.push(&**initial_value);
                children.push(&**body);
                proof { assert(ref_views(children@) =~= kids(view_node(*self))); }
                children
            },
            ASTNode::Forever { body, .. } => one_ref(body),
            ASTNode::BinaryOperation { left, right, .. } => {
                let mut children: Vec<&ASTNode> = Vec::new();
                children.push(&**left);
                children.push(&**right);
                proof { assert(ref_views(children@) =~= kids(view_node(*self))); }
                children
            },
            ASTNode::UnaryOperation { operand, .. } => one_ref(operand),
            ASTNode::StructDeclaration { fields, .. } | ASTNode::StructInstantiation { fields, .. } => refs_of(fields),
            ASTNode::EnumDeclaration { variants, .. } => refs_of(variants),
            ASTNode::StructInstantiationField { value, .. } => one_ref(value),
            ASTNode::NestedFieldAccess { object, .. } => one_ref(object),
            ASTNode::ArrayLiteral { elements, .. } => refs_of(elements),
            ASTNode::ReturnDeclaration { statement, .. } | ASTNode::YieldDeclaration { statement, .. } => one_ref(statement),
            _ => {
                let children: Vec<&ASTNode> = Vec::new();
                proof { assert(ref_views(children@) =~= kids(view_node(*self))); }
                children
            },
        }
    }
}

} // verus!
