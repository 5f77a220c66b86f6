use json_tree::{Node, Parser};

#[test]
fn test_parse_int_literal() {
    let json_str = "123";
    let mut parser = Parser::new(json_str.chars());
    let result = parser.parse().unwrap();
    if let Node::IntLiteral(value) = result {
        assert_eq!(value, 123);
    } else {
        panic!("Expected IntLiteral, got {:?}", result);
    }
}

#[test]
fn test_parse_float_literal() {
    let json_str = "123.45";
    let mut parser = Parser::new(json_str.chars());
    let result = parser.parse().unwrap();
    if let Node::FloatLiteral(text) = &result {
        let value: f32 = text.parse().unwrap();
        assert_eq!(value, 123.45);
    } else {
        panic!("Expected FloatLiteral, got {:?}", result);
    }
}

#[test]
fn test_parse_string_literal() {
    let json_str = r#""hello world""#;
    let mut parser = Parser::new(json_str.chars());
    let result = parser.parse().unwrap();
    if let Node::StringLiteral(value) = result {
        assert_eq!(value, "hello world");
    } else {
        panic!("Expected StringLiteral, got {:?}", result);
    }
}

#[test]
fn test_parse_null_literal() {
    let json_str = "null";
    let mut parser = Parser::new(json_str.chars());
    let result = parser.parse().unwrap();
    if let Node::NullLiteral = result {
        // Success
    } else {
        panic!("Expected NullLiteral, got {:?}", result);
    }
}

#[test]
fn test_parse_empty_object() {
    let json_str = "{}";
    let mut parser = Parser::new(json_str.chars());
    let result = parser.parse().unwrap();
    if let Node::Object(map) = result {
        assert!(map.is_empty());
    } else {
        panic!("Expected Object, got {:?}", result);
    }
}

#[test]
fn test_parse_simple_object() {
    let json_str = r#"{"key": 123,}"#;
    let mut parser = Parser::new(json_str.chars());
    let result = parser.parse().unwrap();
    if let Node::Object(map) = result {
        assert_eq!(map.len(), 1);
        if let Some(Node::IntLiteral(value)) = map.get("key") {
            assert_eq!(*value, 123);
        } else {
            panic!("Expected IntLiteral for key 'key'");
        }
    } else {
        panic!("Expected Object, got {:?}", result);
    }
}

#[test]
fn test_parse_multi_entry_object() {
    let json_str = r#"{"name": "Alice", "age": 30, "isStudent": false,}"#;
    let mut parser = Parser::new(json_str.chars());
    let result = parser.parse().unwrap();
    if let Node::Object(map) = result {
        assert_eq!(map.len(), 3);
        if let Some(Node::StringLiteral(name)) = map.get("name") {
            assert_eq!(name, "Alice");
        } else {
            panic!("Missing or wrong type for 'name'");
        }
        if let Some(Node::IntLiteral(age)) = map.get("age") {
            assert_eq!(*age, 30);
        } else {
            panic!("Missing or wrong type for 'age'");
        }
        if let Some(Node::BoolLiteral(is_student)) = map.get("isStudent") {
            assert!(!*is_student);
        } else {
            panic!("Missing or wrong type for 'isStudent'");
        }
    } else {
        panic!("Expected Object, got {:?}", result);
    }
}

#[test]
fn test_parse_empty_array() {
    let json_str = "[]";
    let mut parser = Parser::new(json_str.chars());
    let result = parser.parse().unwrap();
    if let Node::Array(vec) = result {
        assert!(vec.is_empty());
    } else {
        panic!("Expected Array, got {:?}", result);
    }
}

#[test]
fn test_parse_simple_array() {
    let json_str = "[1, 2, 3,]";
    let mut parser = Parser::new(json_str.chars());
    let result = parser.parse().unwrap();
    if let Node::Array(vec) = result {
        assert_eq!(vec.len(), 3);
        if let Node::IntLiteral(v) = vec[0] { assert_eq!(v, 1); } else { panic!("Expected IntLiteral"); }
        if let Node::IntLiteral(v) = vec[1] { assert_eq!(v, 2); } else { panic!("Expected IntLiteral"); }
        if let Node::IntLiteral(v) = vec[2] { assert_eq!(v, 3); } else { panic!("Expected IntLiteral"); }
    } else {
        panic!("Expected Array, got {:?}", result);
    }
}

#[test]
fn test_parse_mixed_array() {
    let json_str = r#"[1, "hello", null, 3.14,]"#;
    let mut parser = Parser::new(json_str.chars());
    let result = parser.parse().unwrap();
    if let Node::Array(vec) = result {
        assert_eq!(vec.len(), 4);
        if let Node::IntLiteral(v) = vec[0] { assert_eq!(v, 1); } else { panic!("Expected IntLiteral"); }
        if let Node::StringLiteral(s) = &vec[1] { assert_eq!(s, "hello"); } else { panic!("Expected StringLiteral"); }
        if let Node::NullLiteral = vec[2] { /* OK */ } else { panic!("Expected NullLiteral"); }
        if let Node::FloatLiteral(text) = &vec[3] {
            let f: f32 = text.parse().unwrap();
            assert_eq!(f, 3.14);
        } else {
            panic!("Expected FloatLiteral");
        }
    } else {
        panic!("Expected Array, got {:?}", result);
    }
}

#[test]
fn test_parse_nested_object() {
    let json_str = r#"{"data": {"id": 1, "name": "Test",},}"#;
    let mut parser = Parser::new(json_str.chars());
    let result = parser.parse().unwrap();
    if let Node::Object(outer_map) = result {
        if let Some(Node::Object(inner_map)) = outer_map.get("data") {
            if let Some(Node::IntLiteral(id)) = inner_map.get("id") {
                assert_eq!(*id, 1);
            } else {
                panic!("Missing or wrong type for 'id'");
            }
            if let Some(Node::StringLiteral(name)) = inner_map.get("name") {
                assert_eq!(name, "Test");
            } else {
                panic!("Missing or wrong type for 'name'");
            }
        } else {
            panic!("Expected nested Object for key 'data'");
        }
    } else {
        panic!("Expected Object, got {:?}", result);
    }
}

#[test]
fn test_parse_nested_array() {
    let json_str = r#"[1, [2, 3,], 4,]"#;
    let mut parser = Parser::new(json_str.chars());
    let result = parser.parse().unwrap();
    if let Node::Array(outer_vec) = result {
        assert_eq!(outer_vec.len(), 3);
        if let Node::IntLiteral(v) = outer_vec[0] { assert_eq!(v, 1); } else { panic!("Expected IntLiteral"); }
        if let Node::Array(inner_vec) = &outer_vec[1] {
            assert_eq!(inner_vec.len(), 2);
            if let Node::IntLiteral(v) = inner_vec[0] { assert_eq!(v, 2); } else { panic!("Expected IntLiteral"); }
            if let Node::IntLiteral(v) = inner_vec[1] { assert_eq!(v, 3); } else { panic!("Expected IntLiteral"); }
        } else {
            panic!("Expected nested Array");
        }
        if let Node::IntLiteral(v) = outer_vec[2] { assert_eq!(v, 4); } else { panic!("Expected IntLiteral"); }
    } else {
        panic!("Expected Array, got {:?}", result);
    }
}
