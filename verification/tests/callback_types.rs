use dust::callback::same_text;
use dust::{Callback, CallbackId, CallbackType, Output, OutputState, ValueToIdentifier};

#[derive(Clone, Copy, Debug, PartialEq, Eq, Hash)]
enum Field {
    X,
    Y,
}

#[derive(Clone, Debug, PartialEq)]
enum FieldValue {
    X(u32),
    Y(u32),
}

impl ValueToIdentifier<Field> for FieldValue {
    fn identifier(&self) -> Field {
        self.to_identifier()
    }

    fn to_identifier(&self) -> Field {
        match self {
            FieldValue::X(_) => Field::X,
            FieldValue::Y(_) => Field::Y,
        }
    }
}

type Body = fn(&std::collections::HashMap<Field, FieldValue>) -> Vec<FieldValue>;

#[test]
fn output_starts_unchanged_and_records_a_value() {
    let mut out: Output<u32> = Output::new();
    assert!(matches!(out.state, OutputState::NoChange));
    out.set(7);
    assert!(matches!(out.state, OutputState::Updated(7)));
}

#[test]
fn callback_id_is_its_index() {
    assert_eq!(CallbackId(3).callback_index(), 3);
    assert_eq!(CallbackId(3), CallbackId(3));
    assert_ne!(CallbackId(3), CallbackId(4));
}

#[test]
fn callback_new_keeps_its_arguments() {
    let c: Callback<Field, Body> =
        Callback::new("double", None, vec![Field::X], vec![Field::Y], CallbackType::Server);
    assert_eq!(c.name, "double");
    assert!(c.cb.is_none());
    assert_eq!(c.inputs, vec![Field::X]);
    assert_eq!(c.outputs, vec![Field::Y]);
    assert_eq!(c.cb_type, CallbackType::Server);
}

#[test]
fn value_projects_to_its_identifier() {
    assert_eq!(FieldValue::X(1).to_identifier(), Field::X);
    assert_eq!(FieldValue::Y(1).to_identifier(), Field::Y);
}

#[test]
fn callbacks_are_equal_when_their_names_are() {
    let a: Callback<Field, Body> =
        Callback::new("same", None, vec![Field::X], vec![], CallbackType::Server);
    let b: Callback<Field, Body> =
        Callback::new("same", None, vec![], vec![Field::Y], CallbackType::Client);
    let c: Callback<Field, Body> =
        Callback::new("other", None, vec![Field::X], vec![], CallbackType::Server);
    assert!(a == b);
    assert!(a != c);
}

#[test]
fn texts_are_compared_by_their_characters() {
    assert!(same_text("", ""));
    assert!(same_text("größer", "größer"));
    assert!(!same_text("abc", "abd"));
    assert!(!same_text("abc", "ab"));
    assert!(!same_text("", "a"));
}
