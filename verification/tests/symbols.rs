use nail::ast::ASTNode;
use nail::symbols::{extract_symbols_from_ast, SymbolType};
use nail::syntax::{CodeSpan, NailDataTypeDescriptor};

fn span() -> CodeSpan {
    CodeSpan::default()
}

fn field(name: &str, data_type: NailDataTypeDescriptor) -> ASTNode {
    ASTNode::StructDeclarationField { name: name.to_string(), data_type, scope: 0 }
}

fn constant(name: &str, data_type: NailDataTypeDescriptor) -> ASTNode {
    ASTNode::ConstDeclaration {
        name: name.to_string(),
        data_type,
        value: Box::new(ASTNode::NumberLiteral { value: "1".to_string(), data_type: NailDataTypeDescriptor::Int, code_span: span(), scope: 0 }),
        sandboxed: false,
        code_span: span(),
        scope: 0,
    }
}

fn truth() -> Box<ASTNode> {
    Box::new(ASTNode::BooleanLiteral { value: true, code_span: span(), scope: 0 })
}

#[test]
fn a_program_lists_its_declarations_in_order() {
    let program = ASTNode::Program {
        statements: vec![
            ASTNode::StructDeclaration {
                name: "point".to_string(),
                fields: vec![field("x", NailDataTypeDescriptor::Int), field("y", NailDataTypeDescriptor::Float)],
                code_span: span(),
                scope: 0,
            },
            ASTNode::EnumDeclaration {
                name: "colour".to_string(),
                variants: vec![
                    ASTNode::EnumVariant { name: "colour".to_string(), variant: "red".to_string(), code_span: span(), scope: 0 },
                    ASTNode::EnumVariant { name: "colour".to_string(), variant: "blue".to_string(), code_span: span(), scope: 0 },
                ],
                code_span: span(),
                scope: 0,
            },
            constant("limit", NailDataTypeDescriptor::Int),
            ASTNode::Identifier { name: "limit".to_string(), code_span: span(), scope: 0 },
        ],
        code_span: span(),
        scope: 0,
    };
    let symbols = extract_symbols_from_ast(&program);
    let names: Vec<&str> = symbols.iter().map(|s| s.name.as_str()).collect();
    assert_eq!(names, vec!["point", "colour", "limit"]);
    match &symbols[0].symbol_type {
        SymbolType::Struct { fields } => {
            let field_names: Vec<&str> = fields.iter().map(|(n, _)| n.as_str()).collect();
            assert_eq!(field_names, vec!["x", "y"]);
            assert!(matches!(fields[1].1, NailDataTypeDescriptor::Float));
        }
        _ => panic!("a struct was expected"),
    }
    match &symbols[1].symbol_type {
        SymbolType::Enum { variants } => assert_eq!(variants, &vec!["red".to_string(), "blue".to_string()]),
        _ => panic!("an enum was expected"),
    }
    assert!(matches!(symbols[2].symbol_type, SymbolType::Variable { data_type: NailDataTypeDescriptor::Int }));
}

#[test]
fn declarations_inside_if_branches_and_function_bodies_are_found() {
    let program = ASTNode::Program {
        statements: vec![
            ASTNode::IfStatement {
                condition_branches: vec![(truth(), Box::new(constant("inside", NailDataTypeDescriptor::String)))],
                else_branch: Some(Box::new(constant("otherwise", NailDataTypeDescriptor::Boolean))),
                code_span: span(),
                scope: 0,
            },
            ASTNode::FunctionDeclaration {
                name: "main".to_string(),
                params: vec![],
                data_type: NailDataTypeDescriptor::Void,
                body: Box::new(constant("direct", NailDataTypeDescriptor::Int)),
                sandboxed: false,
                code_span: span(),
                scope: 0,
            },
        ],
        code_span: span(),
        scope: 0,
    };
    let names: Vec<String> = extract_symbols_from_ast(&program).into_iter().map(|s| s.name).collect();
    assert_eq!(names, vec!["inside", "otherwise", "direct"]);
}

#[test]
fn a_block_is_not_searched() {
    let block = ASTNode::Block { statements: vec![constant("hidden", NailDataTypeDescriptor::Int)], code_span: span(), scope: 0 };
    assert!(extract_symbols_from_ast(&block).is_empty());
}
