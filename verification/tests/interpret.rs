use some_dice::interpret::env::Environment;
use some_dice::interpret::interpreter::Interpreter;
use some_dice::interpret::output::{Output, Outputs};
use some_dice::outcome::Outcome;

#[test]
fn test_environment_starts_empty() {
    let env = Environment::new();
    assert!(env.get_value("FOO").is_none());
}

#[test]
fn test_interpreter_new() {
    let a = Interpreter::new();
    let b = Interpreter::new();
    assert_eq!(a, b);
}

#[test]
fn test_outputs_collects_in_order() {
    let mut outputs = Outputs::new();
    assert_eq!(outputs.outcomes().len(), 0);

    outputs.add_output(Output::new(vec![Outcome { value: 1, weight: 1 }], None));
    outputs.add_output(Output::new(vec![Outcome { value: 2, weight: 1 }], Some("two".to_owned())));

    assert_eq!(outputs.outcomes().len(), 2);
    assert_eq!(outputs.outcomes()[0].outcomes(), &vec![Outcome { value: 1, weight: 1 }]);
    assert_eq!(outputs.outcomes()[1].outcomes(), &vec![Outcome { value: 2, weight: 1 }]);
}
