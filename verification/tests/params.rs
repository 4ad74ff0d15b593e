use waterdrop_terrain_generator::node::params::{ParamFault, ParamInput, ParamLimit};

#[test]
fn int_range_is_inclusive() {
    let limit = ParamLimit::IntRange { min: 1, max: 10 };
    assert_eq!(limit.check(&ParamInput::Int(1)), Ok(()));
    assert_eq!(limit.check(&ParamInput::Int(10)), Ok(()));
    assert_eq!(limit.check(&ParamInput::Int(0)), Err(ParamFault::OutOfRange));
    assert_eq!(limit.check(&ParamInput::Int(11)), Err(ParamFault::OutOfRange));
}

#[test]
fn string_length_counts_bytes() {
    let limit = ParamLimit::StringMaxLength { max_length: 4 };
    assert_eq!(limit.check(&ParamInput::String("abcd")), Ok(()));
    assert_eq!(
        limit.check(&ParamInput::String("abcde")),
        Err(ParamFault::TooLong { length: 5, max_length: 4 })
    );
    // "é" is two bytes in UTF-8.
    assert_eq!(
        limit.check(&ParamInput::String("ééé")),
        Err(ParamFault::TooLong { length: 6, max_length: 4 })
    );
}

#[test]
fn enum_must_name_an_option() {
    let limit = ParamLimit::EnumOneOf { options: vec!["Add", "Multiply"] };
    assert_eq!(limit.check(&ParamInput::Enum("Multiply")), Ok(()));
    assert_eq!(limit.check(&ParamInput::Enum("multiply")), Err(ParamFault::NotAnOption));
    let empty = ParamLimit::EnumOneOf { options: vec![] };
    assert_eq!(empty.check(&ParamInput::Enum("Add")), Err(ParamFault::NotAnOption));
}

#[test]
fn vector_range_is_checked_per_axis() {
    let limit = ParamLimit::Vector2IntRange { min: (0, -5), max: (8, 5) };
    assert_eq!(limit.check(&ParamInput::Vector2Int(8, -5)), Ok(()));
    assert_eq!(limit.check(&ParamInput::Vector2Int(9, 0)), Err(ParamFault::OutOfRange));
    assert_eq!(limit.check(&ParamInput::Vector2Int(0, 6)), Err(ParamFault::OutOfRange));
}

#[test]
fn mismatched_kinds_are_refused() {
    let limit = ParamLimit::IntRange { min: 0, max: 1 };
    assert_eq!(limit.check(&ParamInput::String("1")), Err(ParamFault::TypeMismatch));
    assert_eq!(limit.check(&ParamInput::Other), Err(ParamFault::TypeMismatch));
    let text = ParamLimit::StringMaxLength { max_length: 3 };
    assert_eq!(text.check(&ParamInput::Enum("a")), Err(ParamFault::TypeMismatch));
}

#[test]
fn int_list_admits_listed_values_only() {
    let limit = ParamLimit::IntList { values: vec![16, 32, 64] };
    assert_eq!(limit.check(&ParamInput::Int(32)), Ok(()));
    assert_eq!(limit.check(&ParamInput::Int(48)), Err(ParamFault::NotAnOption));
    assert_eq!(limit.check(&ParamInput::Vector2Int(16, 16)), Err(ParamFault::TypeMismatch));
}

#[test]
fn validate_explains_each_fault_in_words() {
    let range = ParamLimit::IntRange { min: -5, max: 10 };
    assert_eq!(range.validate(&ParamInput::Int(3)), Ok(()));
    assert_eq!(range.validate(&ParamInput::Int(-12)), Err("Value -12 is out of range [-5, 10]".to_string()));
    assert_eq!(range.validate(&ParamInput::Int(11)), Err("Value 11 is out of range [-5, 10]".to_string()));
    assert_eq!(
        range.validate(&ParamInput::Enum("x")),
        Err("Type mismatch between constraint and value".to_string())
    );
    let text = ParamLimit::StringMaxLength { max_length: 4 };
    assert_eq!(text.validate(&ParamInput::String("abcdef")), Err("String length 6 exceeds maximum length 4".to_string()));
    let options = ParamLimit::EnumOneOf { options: vec!["Add", "Multiply"] };
    assert_eq!(
        options.validate(&ParamInput::Enum("Sub")),
        Err("Value 'Sub' is not one of the allowed options: [\"Add\", \"Multiply\"]".to_string())
    );
    let pair = ParamLimit::Vector2IntRange { min: (0, -1), max: (8, 8) };
    assert_eq!(
        pair.validate(&ParamInput::Vector2Int(9, 0)),
        Err("Value (9, 0) is out of range [(0, -1), (8, 8)]".to_string())
    );
    let list = ParamLimit::IntList { values: vec![256, -512, 1024] };
    assert_eq!(list.validate(&ParamInput::Int(1024)), Ok(()));
    assert_eq!(
        list.validate(&ParamInput::Int(7)),
        Err("Value 7 is not one of the allowed values: [256, -512, 1024]".to_string())
    );
    let none = ParamLimit::IntList { values: vec![] };
    assert_eq!(none.validate(&ParamInput::Int(i32::MIN)), Err("Value -2147483648 is not one of the allowed values: []".to_string()));
}
