use nail::ast::ASTNode;
use nail::parser::parse;
use nail::syntax::{
    CodeSpan, EnumDeclarationData, EnumVariantData, NailDataTypeDescriptor, Operation, StructDeclarationData, StructField, Token,
    TokenType,
};

fn at(line: usize, column: usize, width: usize) -> CodeSpan {
    CodeSpan { start_line: line, start_column: column, end_line: line, end_column: column + width }
}

/// Tokens laid out one after another on the first line.
fn line(types: Vec<TokenType>) -> Vec<Token> {
    let mut column = 1;
    let mut tokens = Vec::new();
    for token_type in types {
        tokens.push(Token { token_type, code_span: at(1, column, 1) });
        column += 2;
    }
    tokens
}

fn ident(name: &str) -> TokenType {
    TokenType::Identifier(name.to_string())
}

fn integer(value: &str) -> TokenType {
    TokenType::Integer(value.to_string())
}

fn string(value: &str) -> TokenType {
    TokenType::StringLiteral { value: value.to_string(), tag: None }
}

fn op(operation: Operation) -> TokenType {
    TokenType::Operator(operation)
}

fn sig(parts: Vec<TokenType>) -> TokenType {
    TokenType::FunctionSignature(line(parts))
}

fn variant(name: &str, variant: &str) -> TokenType {
    TokenType::EnumVariant(EnumVariantData { name: name.to_string(), variant: variant.to_string() })
}

fn struct_declaration(name: &str, fields: &[(&str, NailDataTypeDescriptor)]) -> TokenType {
    TokenType::StructDeclaration(StructDeclarationData {
        name: name.to_string(),
        fields: fields.iter().map(|(n, t)| StructField { name: n.to_string(), data_type: nail::syntax::copy_type(t) }).collect(),
    })
}

fn enum_declaration(name: &str, variants: &[&str]) -> TokenType {
    TokenType::EnumDeclaration(EnumDeclarationData {
        name: name.to_string(),
        variants: line(variants.iter().map(|v| variant(name, v)).collect()),
    })
}

fn statements(node: ASTNode) -> Vec<ASTNode> {
    match node {
        ASTNode::Program { statements, .. } => statements,
        other => panic!("Expected Program node, got: {:?}", other),
    }
}

// f add(yay:i, bah:i):i { r yay + bah; }
#[test]
fn test_function_declaration() {
    let tokens = line(vec![
        sig(vec![
            TokenType::FunctionName("add".to_string()),
            ident("yay"),
            TokenType::TypeDeclaration(NailDataTypeDescriptor::Int),
            TokenType::Comma,
            ident("bah"),
            TokenType::TypeDeclaration(NailDataTypeDescriptor::Int),
            TokenType::FunctionReturnTypeDeclaration(NailDataTypeDescriptor::Int),
        ]),
        TokenType::BlockOpen,
        TokenType::Return,
        ident("yay"),
        op(Operation::Add),
        ident("bah"),
        TokenType::EndStatementOrExpression,
        TokenType::BlockClose,
    ]);
    let result = parse(tokens).unwrap();
    assert!(matches!(result, ASTNode::Program { .. }));
}

// if { a > 5 -> {} };
#[test]
fn test_if_statement() {
    let tokens = line(vec![
        TokenType::IfDeclaration,
        TokenType::BlockOpen,
        ident("a"),
        op(Operation::Gt),
        integer("5"),
        TokenType::ArrowAssignment,
        TokenType::BlockOpen,
        TokenType::BlockClose,
        TokenType::BlockClose,
        TokenType::EndStatementOrExpression,
    ]);
    let result = parse(tokens).unwrap();
    assert!(matches!(result, ASTNode::Program { .. }));
}

// struct Point { x_pos:i, y_pos:i }
#[test]
fn test_struct_declaration() {
    let tokens = line(vec![struct_declaration("Point", &[("x_pos", NailDataTypeDescriptor::Int), ("y_pos", NailDataTypeDescriptor::Int)])]);
    let result = parse(tokens).unwrap();
    assert!(matches!(result, ASTNode::Program { .. }));
}

// enum Color { Red, Green, Blue }
#[test]
fn test_enum_declaration() {
    let tokens = line(vec![enum_declaration("Color", &["Red", "Green", "Blue"])]);
    let result = parse(tokens).unwrap();
    assert!(matches!(result, ASTNode::Program { .. }));
}

// fun(param);
#[test]
fn test_function_call() {
    let tokens = line(vec![ident("fun"), TokenType::ParenthesisOpen, ident("param"), TokenType::ParenthesisClose, TokenType::EndStatementOrExpression]);
    let result = parse(tokens).unwrap();
    assert!(matches!(result, ASTNode::Program { .. }));
}

// fun(times(param));
#[test]
fn test_function_nested_call() {
    let tokens = line(vec![
        ident("fun"),
        TokenType::ParenthesisOpen,
        ident("times"),
        TokenType::ParenthesisOpen,
        ident("param"),
        TokenType::ParenthesisClose,
        TokenType::ParenthesisClose,
        TokenType::EndStatementOrExpression,
    ]);
    let result = parse(tokens).unwrap();
    assert!(matches!(result, ASTNode::Program { .. }));
}

// if { a > 5 -> {}, else -> {} };
#[test]
fn test_if_else_statement() {
    let tokens = line(vec![
        TokenType::IfDeclaration,
        TokenType::BlockOpen,
        ident("a"),
        op(Operation::Gt),
        integer("5"),
        TokenType::ArrowAssignment,
        TokenType::BlockOpen,
        TokenType::BlockClose,
        TokenType::Comma,
        TokenType::ElseDeclaration,
        TokenType::ArrowAssignment,
        TokenType::BlockOpen,
        TokenType::BlockClose,
        TokenType::BlockClose,
        TokenType::EndStatementOrExpression,
    ]);
    let result = parse(tokens).unwrap();
    assert!(matches!(result, ASTNode::Program { .. }));
}

// if { a > 5 -> {}, b < 5 -> {}, else -> {} };
#[test]
fn test_if_else_if_else_statement() {
    let tokens = line(vec![
        TokenType::IfDeclaration,
        TokenType::BlockOpen,
        ident("a"),
        op(Operation::Gt),
        integer("5"),
        TokenType::ArrowAssignment,
        TokenType::BlockOpen,
        TokenType::BlockClose,
        TokenType::Comma,
        ident("b"),
        op(Operation::Lt),
        integer("5"),
        TokenType::ArrowAssignment,
        TokenType::BlockOpen,
        TokenType::BlockClose,
        TokenType::Comma,
        TokenType::ElseDeclaration,
        TokenType::ArrowAssignment,
        TokenType::BlockOpen,
        TokenType::BlockClose,
        TokenType::BlockClose,
        TokenType::EndStatementOrExpression,
    ]);
    let result = parse(tokens).unwrap();
    assert!(matches!(result, ASTNode::Program { .. }));
}

/// test_array:a:i = [1, 2, 3];
fn array_of_three() -> Vec<Token> {
    line(vec![
        ident("test_array"),
        TokenType::Colon,
        ident("a"),
        TokenType::Colon,
        ident("i"),
        TokenType::Assignment,
        TokenType::ArrayOpen,
        integer("1"),
        TokenType::Comma,
        integer("2"),
        TokenType::Comma,
        integer("3"),
        TokenType::ArrayClose,
        TokenType::EndStatementOrExpression,
    ])
}

#[test]
fn test_array() {
    let result = parse(array_of_three()).unwrap();
    assert!(matches!(result, ASTNode::Program { .. }));
}

// test_array:a:i = 1;
#[test]
fn test_array_declaration() {
    let tokens = line(vec![
        ident("test_array"),
        TokenType::Colon,
        ident("a"),
        TokenType::Colon,
        ident("i"),
        TokenType::Assignment,
        integer("1"),
        TokenType::EndStatementOrExpression,
    ]);
    let result = parse(tokens).unwrap();
    assert!(matches!(result, ASTNode::Program { .. }));
}

#[test]
fn test_array_declaration_assignment_to_array() {
    let result = parse(array_of_three()).unwrap();
    assert!(matches!(result, ASTNode::Program { .. }));
}

// f random(first:i, second:f):s { result:s = `test`; r result; }
#[test]
fn test_function_declaration_multiple_params() {
    let tokens = line(vec![
        sig(vec![
            TokenType::FunctionName("random".to_string()),
            ident("first"),
            TokenType::TypeDeclaration(NailDataTypeDescriptor::Int),
            TokenType::Comma,
            ident("second"),
            TokenType::TypeDeclaration(NailDataTypeDescriptor::Float),
            TokenType::FunctionReturnTypeDeclaration(NailDataTypeDescriptor::String),
        ]),
        TokenType::BlockOpen,
        ident("result"),
        TokenType::Colon,
        ident("s"),
        TokenType::Assignment,
        string("test"),
        TokenType::EndStatementOrExpression,
        TokenType::Return,
        ident("result"),
        TokenType::EndStatementOrExpression,
        TokenType::BlockClose,
    ]);
    let result = parse(tokens).unwrap();
    assert!(matches!(result, ASTNode::Program { .. }));
}

// enum Color { Red, Green, Blue } my_color:Color = Color::Red;
#[test]
fn test_enum_variant() {
    let tokens = line(vec![
        enum_declaration("Color", &["Red", "Green", "Blue"]),
        ident("my_color"),
        TokenType::Colon,
        ident("Color"),
        TokenType::Assignment,
        variant("Color", "Red"),
        TokenType::EndStatementOrExpression,
    ]);
    let result = parse(tokens).unwrap();
    let statements = statements(result);
    assert!(matches!(statements.get(0), Some(ASTNode::EnumDeclaration { .. })), "First statement should be the enum declaration");
    if let Some(ASTNode::ConstDeclaration { name, value, .. }) = statements.get(1) {
        assert_eq!(name, "my_color");
        match value.as_ref() {
            ASTNode::EnumVariant { name, variant, .. } => {
                assert_eq!(name, "Color");
                assert_eq!(variant, "Red");
            }
            other => panic!("Expected EnumVariant value, got: {:?}", other),
        }
    } else {
        panic!("Expected ConstDeclaration as second statement");
    }
}

// counter:i = 10;
#[test]
fn test_const_declaration() {
    let tokens = line(vec![ident("counter"), TokenType::Colon, ident("i"), TokenType::Assignment, integer("10"), TokenType::EndStatementOrExpression]);
    let result = parse(tokens).unwrap();
    println!("RESULT: {:#?}", result);
}

// struct Point { x_coord:i, y_coord:i }
// points:a:Point = [Point { x_coord = 1, y_coord = 5 }, Point { x_coord = 3, y_coord = 4 }];
#[test]
fn test_array_of_point_structs() {
    let point = |x: &str, y: &str| {
        vec![
            ident("Point"),
            TokenType::BlockOpen,
            ident("x_coord"),
            TokenType::Assignment,
            integer(x),
            TokenType::Comma,
            ident("y_coord"),
            TokenType::Assignment,
            integer(y),
            TokenType::BlockClose,
        ]
    };
    let mut types = vec![
        struct_declaration("Point", &[("x_coord", NailDataTypeDescriptor::Int), ("y_coord", NailDataTypeDescriptor::Int)]),
        ident("points"),
        TokenType::Colon,
        ident("a"),
        TokenType::Colon,
        ident("Point"),
        TokenType::Assignment,
        TokenType::ArrayOpen,
    ];
    types.extend(point("1", "5"));
    types.push(TokenType::Comma);
    types.extend(point("3", "4"));
    types.push(TokenType::ArrayClose);
    types.push(TokenType::EndStatementOrExpression);
    let result = parse(line(types)).unwrap();
    let statements = statements(result);
    assert!(matches!(statements.get(0), Some(ASTNode::StructDeclaration { .. })), "First statement should be the struct declaration");
    if let Some(ASTNode::ConstDeclaration { name, data_type, value, .. }) = statements.get(1) {
        assert_eq!(name, "points");
        assert!(matches!(data_type, NailDataTypeDescriptor::Array(_)), "Declared type should be an array, got: {:?}", data_type);
        match value.as_ref() {
            ASTNode::ArrayLiteral { elements, .. } => {
                assert_eq!(elements.len(), 2, "Array literal should have two struct instantiations");
                for element in elements {
                    assert!(matches!(element, ASTNode::StructInstantiation { .. }), "Array element should be a struct instantiation, got: {:?}", element);
                }
            }
            other => panic!("Expected ArrayLiteral value, got: {:?}", other),
        }
    } else {
        panic!("Expected ConstDeclaration as second statement");
    }
}

// {
//     inner:i = 5;
//     print(inner);
// }
// print(`after`);
#[test]
fn a_block_on_its_own_is_refused() {
    let tokens = vec![
        Token { token_type: TokenType::BlockOpen, code_span: at(1, 1, 1) },
        Token { token_type: ident("inner"), code_span: at(2, 5, 5) },
        Token { token_type: TokenType::Colon, code_span: at(2, 10, 1) },
        Token { token_type: ident("i"), code_span: at(2, 11, 1) },
        Token { token_type: TokenType::Assignment, code_span: at(2, 13, 1) },
        Token { token_type: integer("5"), code_span: at(2, 15, 1) },
        Token { token_type: TokenType::EndStatementOrExpression, code_span: at(2, 16, 1) },
        Token { token_type: ident("print"), code_span: at(3, 5, 5) },
        Token { token_type: TokenType::ParenthesisOpen, code_span: at(3, 10, 1) },
        Token { token_type: ident("inner"), code_span: at(3, 11, 5) },
        Token { token_type: TokenType::ParenthesisClose, code_span: at(3, 16, 1) },
        Token { token_type: TokenType::EndStatementOrExpression, code_span: at(3, 17, 1) },
        Token { token_type: TokenType::BlockClose, code_span: at(4, 1, 1) },
        Token { token_type: ident("print"), code_span: at(5, 1, 5) },
        Token { token_type: TokenType::ParenthesisOpen, code_span: at(5, 6, 1) },
        Token { token_type: string("after"), code_span: at(5, 7, 7) },
        Token { token_type: TokenType::ParenthesisClose, code_span: at(5, 14, 1) },
        Token { token_type: TokenType::EndStatementOrExpression, code_span: at(5, 15, 1) },
    ];
    let error = parse(tokens).expect_err("a bare block must be refused");
    assert!(error.message.contains("A block on its own does nothing"), "got: {}", error.message);
    assert_eq!(error.code_span.start_line, 1);
}
