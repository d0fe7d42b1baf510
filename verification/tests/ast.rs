use some_dice::ast::functional::{
    configure_expression, configure_string, integer, output, program, range_entry, sequence,
    single_entry, variable_reference,
};
use some_dice::ast::{Expression, SequenceEntry, Statement};

#[test]
fn test_integer_node() {
    assert!(matches!(integer(3), Expression::Integer { value: 3 }));
}

#[test]
fn test_variable_reference_node() {
    match variable_reference("FOO".to_owned()) {
        Expression::VariableReference { name } => assert_eq!(name, "FOO"),
        _ => panic!("expected a variable reference"),
    }
}

#[test]
fn test_single_entry_node() {
    assert!(matches!(
        single_entry(integer(1), integer(2)),
        SequenceEntry::Single {
            value: Expression::Integer { value: 1 },
            repetitions: Expression::Integer { value: 2 },
        }
    ));
}

#[test]
fn test_range_entry_node() {
    assert!(matches!(
        range_entry(integer(4), integer(5), integer(1)),
        SequenceEntry::Range {
            start: Expression::Integer { value: 4 },
            end: Expression::Integer { value: 5 },
            repetitions: Expression::Integer { value: 1 },
        }
    ));
}

#[test]
fn test_sequence_node() {
    match sequence(vec![single_entry(integer(1), integer(1))]) {
        Expression::Sequence { entries } => assert_eq!(entries.len(), 1),
        _ => panic!("expected a sequence"),
    }
}

#[test]
fn test_output_node() {
    assert!(matches!(
        output(integer(1), None),
        Statement::Output { value: Expression::Integer { value: 1 }, name: None }
    ));
}

#[test]
fn test_configure_string_node() {
    match configure_string("position order".to_owned(), "lowest first".to_owned()) {
        Statement::ConfigureString { setting, value } => {
            assert_eq!(setting, "position order");
            assert_eq!(value, "lowest first");
        },
        _ => panic!("expected a configure statement"),
    }
}

#[test]
fn test_configure_expression_node() {
    assert!(matches!(
        configure_expression("maximum function depth".to_owned(), integer(5)),
        Statement::ConfigureExpression { setting: _, value: Expression::Integer { value: 5 } }
    ));
}

#[test]
fn test_program_node() {
    let p = program(vec![output(integer(1), None), output(integer(2), None)]);
    assert_eq!(p.statements.len(), 2);
}
