use crabgraph::state::{
    Annotated, IntoStateModification, Merge, Merger, Modification, Replace, State, StateView,
};
use crabgraph::GraphError;
use crabgraph::typed::json::TypedState;
use crabgraph::{JsonObject, JsonValue, RunError, TransferObject};

fn text(value: &str) -> JsonValue {
    JsonValue::Text(value.to_string())
}

fn field(state: &State, name: &str) -> Option<JsonValue> {
    let object = state.as_object();
    let mut found = None;
    for (key, value) in object.entries() {
        if key == name {
            found = Some(copy(value));
        }
    }
    found
}

fn copy(value: &JsonValue) -> JsonValue {
    match value {
        JsonValue::Null => JsonValue::Null,
        JsonValue::Bool(b) => JsonValue::Bool(*b),
        JsonValue::Number(n) => JsonValue::Number(*n),
        JsonValue::Decimal(d) => JsonValue::Decimal(d.clone()),
        JsonValue::Text(t) => JsonValue::Text(t.clone()),
        JsonValue::Array(items) => JsonValue::Array(items.iter().map(copy).collect()),
        JsonValue::Object(object) => {
            let mut made = JsonObject::new();
            for (key, value) in object.entries() {
                made.insert(key.clone(), copy(value));
            }
            JsonValue::Object(made)
        }
    }
}

#[test]
fn set_creates_and_replaces_a_field() {
    let mut state = State::new();
    state.apply_modification(Modification::SetField("name".to_string(), text("a")));
    assert_eq!(field(&state, "name"), Some(text("a")));
    state.apply_modification(Modification::SetField("name".to_string(), JsonValue::Bool(true)));
    assert_eq!(field(&state, "name"), Some(JsonValue::Bool(true)));
    assert_eq!(state.as_object().len(), 1);
}

#[test]
fn extend_array_creates_the_array_and_appends_to_it() {
    let mut state = State::new();
    state.apply_modification(Modification::ExtendArray("log".to_string(), vec![text("a")]));
    assert_eq!(field(&state, "log"), Some(JsonValue::Array(vec![text("a")])));
    state.apply_modification(Modification::ExtendArray(
        "log".to_string(),
        vec![text("b"), JsonValue::Number(7)],
    ));
    assert_eq!(
        field(&state, "log"),
        Some(JsonValue::Array(vec![text("a"), text("b"), JsonValue::Number(7)]))
    );
}

#[test]
fn extend_array_with_nothing_still_creates_the_array() {
    let mut state = State::new();
    state.apply_modification(Modification::ExtendArray("log".to_string(), vec![]));
    assert_eq!(field(&state, "log"), Some(JsonValue::Array(vec![])));
}

#[test]
fn extend_array_takes_a_field_that_holds_no_array_as_empty() {
    let mut state = State::new();
    state.apply_modification(Modification::SetField("log".to_string(), JsonValue::Number(1)));
    state.apply_modification(Modification::ExtendArray("log".to_string(), vec![text("a")]));
    assert_eq!(field(&state, "log"), Some(JsonValue::Array(vec![text("a")])));
}

#[test]
fn increment_counts_from_zero() {
    let mut state = State::new();
    state.apply_modification(Modification::Increment("n".to_string()));
    assert_eq!(field(&state, "n"), Some(JsonValue::Number(1)));
    state.apply_modification(Modification::Increment("n".to_string()));
    state.apply_modification(Modification::Increment("n".to_string()));
    assert_eq!(field(&state, "n"), Some(JsonValue::Number(3)));
}

#[test]
fn increment_takes_a_field_that_holds_no_integer_as_zero() {
    let mut state = State::new();
    state.apply_modification(Modification::SetField("n".to_string(), text("many")));
    state.apply_modification(Modification::Increment("n".to_string()));
    assert_eq!(field(&state, "n"), Some(JsonValue::Number(1)));
}

#[test]
fn increment_goes_on_from_a_negative_number() {
    let mut state = State::new();
    state.apply_modification(Modification::SetField("n".to_string(), JsonValue::Number(-5)));
    state.apply_modification(Modification::Increment("n".to_string()));
    assert_eq!(field(&state, "n"), Some(JsonValue::Number(-4)));
}

#[test]
fn increment_stays_at_the_largest_integer() {
    let mut state = State::new();
    state.apply_modification(Modification::SetField(
        "n".to_string(),
        JsonValue::Number(i64::MAX - 1),
    ));
    state.apply_modification(Modification::Increment("n".to_string()));
    assert_eq!(field(&state, "n"), Some(JsonValue::Number(i64::MAX)));
    state.apply_modification(Modification::Increment("n".to_string()));
    assert_eq!(field(&state, "n"), Some(JsonValue::Number(i64::MAX)));
}

#[test]
fn a_sequence_applies_the_first_change_and_then_the_second() {
    let mut state = State::new();
    let change = Modification::SetField("n".to_string(), JsonValue::Number(10))
        .followed_by(Modification::Increment("n".to_string()))
        .followed_by(Modification::ExtendArray("log".to_string(), vec![text("x")]));
    state.apply_modification(change);
    assert_eq!(field(&state, "n"), Some(JsonValue::Number(11)));
    assert_eq!(field(&state, "log"), Some(JsonValue::Array(vec![text("x")])));
    let mut other = State::new();
    other.apply_modification(Modification::Sequence(
        Box::new(Modification::Increment("n".to_string())),
        Box::new(Modification::SetField("n".to_string(), JsonValue::Number(10))),
    ));
    assert_eq!(field(&other, "n"), Some(JsonValue::Number(10)));
}

#[test]
fn appends_of_two_branches_are_both_kept_in_either_order() {
    let mut one = State::new();
    one.apply_modification(Modification::ExtendArray("log".to_string(), vec![text("left")]));
    one.apply_modification(Modification::ExtendArray("log".to_string(), vec![text("right")]));
    let mut other = State::new();
    other.apply_modification(Modification::ExtendArray("log".to_string(), vec![text("right")]));
    other.apply_modification(Modification::ExtendArray("log".to_string(), vec![text("left")]));
    assert_eq!(
        field(&one, "log"),
        Some(JsonValue::Array(vec![text("left"), text("right")]))
    );
    assert_eq!(
        field(&other, "log"),
        Some(JsonValue::Array(vec![text("right"), text("left")]))
    );
}

#[test]
fn increments_of_two_fields_commute() {
    let mut one = State::new();
    one.apply_modification(Modification::Increment("a".to_string()));
    one.apply_modification(Modification::Increment("b".to_string()));
    let mut other = State::new();
    other.apply_modification(Modification::Increment("b".to_string()));
    other.apply_modification(Modification::Increment("a".to_string()));
    assert_eq!(field(&one, "a"), field(&other, "a"));
    assert_eq!(field(&one, "b"), field(&other, "b"));
    assert_eq!(field(&one, "a"), Some(JsonValue::Number(1)));
}

#[test]
fn a_state_is_made_from_an_object_and_from_nothing_else() {
    let mut object = JsonObject::new();
    object.insert("n".to_string(), JsonValue::Number(2));
    let state = State::from_json_value(JsonValue::Object(object));
    assert_eq!(field(&state, "n"), Some(JsonValue::Number(2)));
    let state = State::from_json_value(JsonValue::Array(vec![JsonValue::Number(2)]));
    assert_eq!(state.as_object().len(), 0);
    let state = State::from_json_value(JsonValue::Null);
    assert_eq!(state, State::new());
    assert_eq!(State::default(), State::new());
}

#[test]
fn a_state_hands_out_its_document() {
    let mut state = State::new();
    state.apply_modification(Modification::Increment("n".to_string()));
    let mut expected = JsonObject::new();
    expected.insert("n".to_string(), JsonValue::Number(1));
    assert_eq!(state.into_json_value(), JsonValue::Object(expected));
}

#[test]
fn an_object_gives_the_value_of_a_field() {
    let mut object = JsonObject::new();
    object.insert("a".to_string(), JsonValue::Number(1));
    object.insert("b".to_string(), JsonValue::Null);
    object.insert("a".to_string(), JsonValue::Number(2));
    assert_eq!(object.len(), 2);
    assert_eq!(object.get("a"), Some(&JsonValue::Number(2)));
    assert_eq!(object.get("b"), Some(&JsonValue::Null));
    assert_eq!(object.get("c"), None);
    let entries = object.into_entries();
    assert_eq!(entries[0], ("a".to_string(), JsonValue::Number(2)));
    assert_eq!(entries[1], ("b".to_string(), JsonValue::Null));
}

#[derive(Debug, PartialEq)]
struct Index {
    index: i64,
}

fn shape(message: &str) -> RunError {
    RunError::SerdeError(<serde_json::Error as serde::de::Error>::custom(message))
}

impl TransferObject for Index {
    fn from_object(object: &JsonObject) -> Result<Self, RunError> {
        if object.len() != 1 {
            return Err(shape("expected exactly the field `index`"));
        }
        match object.get("index") {
            Some(JsonValue::Number(index)) => Ok(Index { index: *index }),
            Some(_) => Err(shape("`index` is not an integer")),
            None => Err(shape("missing field `index`")),
        }
    }

    fn to_value(self) -> Result<JsonValue, RunError> {
        let mut object = JsonObject::new();
        object.insert("index".to_string(), JsonValue::Number(self.index));
        Ok(JsonValue::Object(object))
    }
}

struct Unwritable;

impl TransferObject for Unwritable {
    fn from_object(_: &JsonObject) -> Result<Self, RunError> {
        Ok(Unwritable)
    }

    fn to_value(self) -> Result<JsonValue, RunError> {
        Err(shape("cannot be written"))
    }
}

struct Scalar;

impl TransferObject for Scalar {
    fn from_object(_: &JsonObject) -> Result<Self, RunError> {
        Ok(Scalar)
    }

    fn to_value(self) -> Result<JsonValue, RunError> {
        Ok(JsonValue::Number(5))
    }
}

#[test]
fn a_typed_view_reads_a_document_of_the_right_shape() {
    let state = State::from_typed(Index { index: 4 }).unwrap();
    let read = state.fetch_view(TypedState::<Index>::new());
    assert_eq!(read.ok(), Some(Index { index: 4 }));
    let read = state.fetch_view(TypedState::<Index>::default());
    assert_eq!(read.ok(), Some(Index { index: 4 }));
}

#[test]
fn a_typed_view_of_a_malformed_document_is_a_failure() {
    let mut state = State::new();
    let read = state.fetch_view(TypedState::<Index>::new());
    match read {
        Err(RunError::SerdeError(error)) => {
            assert_eq!(error.to_string(), "expected exactly the field `index`")
        }
        other => panic!("unexpected: {:?}", other),
    }
    state.apply_modification(Modification::SetField("index".to_string(), text("four")));
    let read = state.fetch_view(TypedState::<Index>::new());
    match read {
        Err(RunError::SerdeError(error)) => assert_eq!(error.to_string(), "`index` is not an integer"),
        other => panic!("unexpected: {:?}", other),
    }
}

#[test]
fn a_state_from_a_typed_value_fails_as_the_writing_fails() {
    assert!(matches!(State::from_typed(Unwritable), Err(RunError::SerdeError(_))));
    let state = State::from_typed(Scalar).unwrap();
    assert_eq!(state.as_object().len(), 0);
}

struct Count;

impl StateView<JsonObject> for Count {
    type Data = usize;

    fn view(self, target: &JsonObject) -> usize {
        target.len()
    }
}

#[test]
fn a_view_of_ones_own_reads_the_document() {
    let mut state = State::new();
    assert_eq!(state.fetch_view(Count), 0);
    state.apply_modification(Modification::Increment("n".to_string()));
    assert_eq!(state.fetch_view(Count), 1);
}

#[test]
fn replace_keeps_the_later_value() {
    assert_eq!(<Replace as Merger<i32>>::merge(1, 2), 2);
    let prev = Annotated { value: 1, merge: Replace };
    let input = Annotated { value: 2, merge: Replace };
    let merged = Merge::merge(prev, input);
    assert_eq!(merged.value, 2);
}

#[test]
fn a_modification_or_a_failure_is_handed_in_as_it_is() {
    let change = Modification::Increment("n".to_string());
    assert_eq!(change.into_state().ok(), Some(Modification::Increment("n".to_string())));
    let fine: Result<Modification, RunError> = Ok(Modification::Increment("n".to_string()));
    assert_eq!(fine.into_state().ok(), Some(Modification::Increment("n".to_string())));
    let failed: Result<Modification, RunError> = Err(RunError::GraphError(GraphError::PointToStart));
    assert!(matches!(
        failed.into_state(),
        Err(RunError::GraphError(GraphError::PointToStart))
    ));
}
