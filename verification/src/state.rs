//! The shared document of a run, and the changes and views that steps make of
//! it.
//!
//! One document exists per run. Steps never write to it directly: they hand
//! in a [`Modification`], which is applied as a whole. Whoever shares the
//! document between concurrent steps guards it with a lock and applies each
//! modification under exclusive access; the order in which racing
//! modifications are applied is then the only thing left open.

use vstd::prelude::*;
use crate::error::RunError;
use crate::TransferObject;

verus! {

/// A structured value: what a field of the document can hold.
#[derive(Debug, PartialEq, Eq)]
pub enum JsonValue {
    Null,
    Bool(bool),
    /// A number that is a 64-bit integer.
    Number(i64),
    /// Any other number, kept as the text it was written as.
    Decimal(String),
    Text(String),
    Array(Vec<JsonValue>),
    Object(JsonObject),
}

/// A document: named fields, each holding a value.
#[derive(Debug, PartialEq, Eq)]
pub struct JsonObject {
    entries: Vec<(String, JsonValue)>,
}

/// The names and values of a list of fields.
pub open spec fn fields_of(entries: Seq<(String, JsonValue)>) -> Seq<(Seq<char>, JsonValue)> {
    entries.map_values(|entry: (String, JsonValue)| (entry.0@, entry.1))
}

/// The items of the array that `field` holds in `doc`; none where the field
/// is absent or holds something else.
pub open spec fn array_at(doc: Map<Seq<char>, JsonValue>, field: Seq<char>) -> Seq<JsonValue> {
    if doc.contains_key(field) {
        match doc[field] {
            JsonValue::Array(items) => items@,
            _ => Seq::empty(),
        }
    } else {
        Seq::empty()
    }
}

/// The integer that `field` holds in `doc`; zero where the field is absent
/// or holds something else.
pub open spec fn number_at(doc: Map<Seq<char>, JsonValue>, field: Seq<char>) -> int {
    if doc.contains_key(field) {
        match doc[field] {
            JsonValue::Number(n) => n as int,
            _ => 0,
        }
    } else {
        0
    }
}

/// One more than `n`, but never more than the largest 64-bit integer.
pub open spec fn bumped(n: int) -> i64 {
    if n < i64::MAX {
        (n + 1) as i64
    } else {
        i64::MAX
    }
}

/// Holds of every document; names the document that a sequence of two changes
/// passes through.
pub open spec fn midway(between: Map<Seq<char>, JsonValue>) -> bool {
    true
}

/// A change of the document, applied as a whole.
#[derive(Debug, PartialEq, Eq)]
pub enum Modification {
    /// Replaces the value of a field, creating the field if it is absent.
    SetField(String, JsonValue),
    /// Appends values to the array of a field; a field that is absent or
    /// holds no array counts as holding the empty array.
    ExtendArray(String, Vec<JsonValue>),
    /// Adds one to the number of a field; a field that is absent or holds no
    /// integer counts as holding zero. The number stays at the largest
    /// 64-bit integer once it has reached it.
    Increment(String),
    /// The first change, then the second.
    Sequence(Box<Modification>, Box<Modification>),
}

impl Modification {
    /// The change turns the document `before` into `after`.
    pub open spec fn turns(
        self,
        before: Map<Seq<char>, JsonValue>,
        after: Map<Seq<char>, JsonValue>,
    ) -> bool
        decreases self,
    {
        match self {
            Modification::SetField(field, value) => after == before.insert(field@, value),
            Modification::ExtendArray(field, values) => {
                &&& after.contains_key(field@)
                &&& after.remove(field@) == before.remove(field@)
                &&& after[field@] matches JsonValue::Array(items)
                &&& items@ == array_at(before, field@) + values@
            },
            Modification::Increment(field) => after == before.insert(
                field@,
                JsonValue::Number(bumped(number_at(before, field@))),
            ),
            Modification::Sequence(first, second) => exists|between: Map<Seq<char>, JsonValue>|
                #[trigger] midway(between) && first.turns(before, between) && second.turns(
                    between,
                    after,
                ),
        }
    }

    /// This change, followed by `next`.
    pub fn followed_by(self, next: Modification) -> (both: Modification)
        ensures
            both == Modification::Sequence(Box::new(self), Box::new(next)),
    {
        Modification::Sequence(Box::new(self), Box::new(next))
    }
}

/// The names of a list of fields.
pub open spec fn names_of(pairs: Seq<(Seq<char>, JsonValue)>) -> Seq<Seq<char>> {
    pairs.map_values(|pair: (Seq<char>, JsonValue)| pair.0)
}

/// An index of `names` that holds `name`, with no index before it that does,
/// is the first one at which `name` occurs.
pub proof fn lemma_first_occurrence(names: Seq<Seq<char>>, name: Seq<char>, i: int)
    requires
        0 <= i < names.len(),
        names[i] == name,
        forall|j: int| 0 <= j < i ==> names[j] != name,
    ensures
        names.index_of_first(name) == Some(i),
{
    names.index_of_first_ensures(name);
    assert(names.contains(name));
    let at = names.index_of_first(name)->0;
    if at < i {
        assert(names[at] != name);
    } else if i < at {
        assert(names[i] != name);
    }
}

impl View for JsonObject {
    type V = Map<Seq<char>, JsonValue>;

    /// Each field with the value of the first pair that names it.
    open spec fn view(&self) -> Map<Seq<char>, JsonValue> {
        Map::new(
            |field: Seq<char>| self.position(field) is Some,
            |field: Seq<char>| self.pairs()[self.position(field)->0].1,
        )
    }
}

impl JsonObject {
    /// The fields in the order in which they were created.
    pub closed spec fn pairs(&self) -> Seq<(Seq<char>, JsonValue)> {
        fields_of(self.entries@)
    }

    /// Where the first pair that names `field` stands.
    pub open spec fn position(&self, field: Seq<char>) -> Option<int> {
        names_of(self.pairs()).index_of_first(field)
    }

    /// The first pair that names a field is the document's entry for it.
    pub proof fn lemma_pair(&self, i: int)
        requires
            0 <= i < self.pairs().len(),
            forall|j: int| 0 <= j < i ==> (#[trigger] self.pairs()[j]).0 != self.pairs()[i].0,
        ensures
            self@.contains_key(self.pairs()[i].0),
            self@[self.pairs()[i].0] == self.pairs()[i].1,
            self.position(self.pairs()[i].0) == Some(i),
    {
        let names = names_of(self.pairs());
        assert forall|j: int| 0 <= j < i implies names[j] != names[i] by {
            assert(self.pairs()[j].0 != self.pairs()[i].0);
        }
        lemma_first_occurrence(names, names[i], i);
    }

    /// Changing the value of the first pair that names a field changes the
    /// document at that field only; adding a pair with a new field adds that
    /// field.
    proof fn lemma_put(&self, before: JsonObject, field: Seq<char>, value: JsonValue)
        requires
            match before.position(field) {
                Some(i) => self.pairs() == before.pairs().update(i, (field, value)),
                None => self.pairs() == before.pairs().push((field, value)),
            },
        ensures
            self@ == before@.insert(field, value),
    {
        let old_names = names_of(before.pairs());
        let names = names_of(self.pairs());
        let n = before.pairs().len() as int;
        old_names.index_of_first_ensures(field);
        match before.position(field) {
            Some(i) => {
                assert(names =~= old_names);
            },
            None => {
                assert(names =~= old_names.push(field));
                lemma_first_occurrence(names, field, n);
            },
        }
        assert forall|name: Seq<char>| #[trigger]
            self@.contains_key(name) == before@.insert(field, value).contains_key(name) by {
            names.index_of_first_ensures(name);
            old_names.index_of_first_ensures(name);
            if old_names.contains(name) {
                let at = old_names.index_of(name);
                assert(names[at] == name);
            }
            if names.contains(name) && name != field {
                let at = names.index_of(name);
                assert(old_names[at] == name);
            }
        }
        assert forall|name: Seq<char>| self@.contains_key(name) implies #[trigger] self@[name]
            == before@.insert(field, value)[name] by {
            names.index_of_first_ensures(name);
            old_names.index_of_first_ensures(name);
            if name != field {
                let at = names.index_of_first(name)->0;
                assert(old_names[at] == name);
                assert forall|j: int| 0 <= j < at implies old_names[j] != name by {
                    assert(names[j] == old_names[j]);
                }
                lemma_first_occurrence(old_names, name, at);
            }
        }
        assert(self@ =~= before@.insert(field, value));
    }

    /// The document without fields.
    pub fn new() -> (doc: Self)
        ensures
            doc.pairs() == Seq::<(Seq<char>, JsonValue)>::empty(),
            doc@ == Map::<Seq<char>, JsonValue>::empty(),
    {
        let doc = JsonObject { entries: Vec::new() };
        proof {
            assert(doc.pairs() =~= Seq::<(Seq<char>, JsonValue)>::empty());
            assert forall|field: Seq<char>| !doc@.contains_key(field) by {
                names_of(doc.pairs()).index_of_first_ensures(field);
            }
            assert(doc@ =~= Map::<Seq<char>, JsonValue>::empty());
        }
        doc
    }

    /// The number of pairs.
    pub fn len(&self) -> (n: usize)
        ensures
            n == self.pairs().len(),
    {
        self.entries.len()
    }

    /// The pairs, in the order in which their fields were created.
    pub fn entries(&self) -> (list: &Vec<(String, JsonValue)>)
        ensures
            fields_of(list@) == self.pairs(),
    {
        &self.entries
    }

    /// The pairs, taken out of the document.
    pub fn into_entries(self) -> (list: Vec<(String, JsonValue)>)
        ensures
            fields_of(list@) == self.pairs(),
    {
        self.entries
    }

    fn find(&self, field: &String) -> (at: Option<usize>)
        ensures
            self.position(field@) == match at {
                Some(i) => Some(i as int),
                None => None,
            },
            at matches Some(i) ==> i < self.pairs().len() && self.pairs()[i as int].0 == field@,
    {
        let mut i: usize = 0;
        while i < self.entries.len()
            invariant
                i <= self.entries.len(),
                forall|j: int| 0 <= j < i ==> (#[trigger] self.pairs()[j]).0 != field@,
            decreases self.entries.len() - i,
        {
            if self.entries[i].0 == *field {
                proof {
                    assert(self.pairs()[i as int].0 == field@);
                    self.lemma_pair(i as int);
                }
                return Some(i);
            }
            i += 1;
        }
        proof {
            let names = names_of(self.pairs());
            names.index_of_first_ensures(field@);
            if names.contains(field@) {
                let at = names.index_of(field@);
                assert(self.pairs()[at].0 != field@);
            }
        }
        None
    }

    /// The value of `field`, if the document has that field.
    pub fn get(&self, field: &str) -> (found: Option<&JsonValue>)
        ensures
            match found {
                Some(value) => self@.contains_key(field@) && *value == self@[field@],
                None => !self@.contains_key(field@),
            },
    {
        let name = field.to_owned();
        match self.find(&name) {
            Some(i) => Some(&self.entries[i].1),
            None => None,
        }
    }

    /// Replaces the value of `field`, creating the field if it is absent.
    pub fn insert(&mut self, field: String, value: JsonValue)
        ensures
            final(self)@ == old(self)@.insert(field@, value),
    {
        let ghost before = *self;
        match self.find(&field) {
            Some(i) => {
                self.entries[i].1 = value;
                assert(self.pairs() =~= before.pairs().update(i as int, (field@, value)));
            },
            None => {
                self.entries.push((field, value));
                assert(self.pairs() =~= before.pairs().push((field@, value)));
            },
        }
        proof {
            self.lemma_put(before, field@, value);
        }
    }

    /// Appends `values` to the array of `field`; a field that is absent or
    /// holds no array counts as holding the empty array.
    pub fn extend_array(&mut self, field: String, values: Vec<JsonValue>)
        ensures
            Modification::ExtendArray(field, values).turns(old(self)@, final(self)@),
    {
        let ghost before = *self;
        let mut values = values;
        match self.find(&field) {
            Some(i) => {
                let grows = match &self.entries[i].1 {
                    JsonValue::Array(_) => true,
                    _ => false,
                };
                if grows {
                    match &mut self.entries[i].1 {
                        JsonValue::Array(items) => {
                            items.append(&mut values);
                        },
                        _ => {},
                    }
                } else {
                    self.entries[i].1 = JsonValue::Array(values);
                }
                proof {
                    let value = self.entries@[i as int].1;
                    assert(self.pairs() =~= before.pairs().update(i as int, (field@, value)));
                    self.lemma_put(before, field@, value);
                }
            },
            None => {
                self.entries.push((field, JsonValue::Array(values)));
                proof {
                    let value = self.entries@[self.entries@.len() - 1].1;
                    assert(self.pairs() =~= before.pairs().push((field@, value)));
                    self.lemma_put(before, field@, value);
                }
            },
        }
        assert(self@.remove(field@) =~= before@.remove(field@));
    }

    /// Adds one to the number of `field`; a field that is absent or holds no
    /// integer counts as holding zero.
    pub fn increment(&mut self, field: String)
        ensures
            Modification::Increment(field).turns(old(self)@, final(self)@),
    {
        let held: i64 = match self.find(&field) {
            Some(i) => match &self.entries[i].1 {
                JsonValue::Number(n) => *n,
                _ => 0,
            },
            None => 0,
        };
        let next: i64 = if held < i64::MAX {
            held + 1
        } else {
            i64::MAX
        };
        self.insert(field, JsonValue::Number(next));
    }

    /// Applies `change` as a whole.
    pub fn apply(&mut self, change: Modification)
        ensures
            change.turns(old(self)@, final(self)@),
        decreases change,
    {
        let ghost before = self@;
        match change {
            Modification::SetField(field, value) => {
                self.insert(field, value);
            },
            Modification::ExtendArray(field, values) => {
                self.extend_array(field, values);
            },
            Modification::Increment(field) => {
                self.increment(field);
            },
            Modification::Sequence(first, second) => {
                self.apply(*first);
                let ghost between = self@;
                self.apply(*second);
                assert(midway(between) && first.turns(before, between) && second.turns(
                    between,
                    self@,
                ));
            },
        }
    }
}

/// A read-only projection of a target of type `T`.
///
/// `projects` says which results the projection may give for a target; where
/// an implementation says nothing, every result is allowed.
pub trait StateView<T>: Sized {
    type Data;

    /// `data` is a result of the projection for `target`.
    open spec fn projects(self, target: &T, data: Self::Data) -> bool {
        true
    }

    /// Evaluates the projection on `target`.
    fn view(self, target: &T) -> (data: Self::Data)
        ensures
            self.projects(target, data),
    ;
}

/// The shared document of one run.
#[derive(Debug, PartialEq, Eq)]
pub struct State {
    document: JsonObject,
}

impl State {
    /// The document.
    pub closed spec fn document(&self) -> JsonObject {
        self.document
    }

    /// The state with an empty document.
    pub fn new() -> (state: Self)
        ensures
            state.document()@ == Map::<Seq<char>, JsonValue>::empty(),
    {
        State { document: JsonObject::new() }
    }

    /// The state whose document is `value`, if `value` is an object, and the
    /// state with an empty document otherwise.
    pub fn from_json_value(value: JsonValue) -> (state: Self)
        ensures
            match value {
                JsonValue::Object(object) => state.document() == object,
                _ => state.document()@ == Map::<Seq<char>, JsonValue>::empty(),
            },
    {
        match value {
            JsonValue::Object(object) => State { document: object },
            _ => State::new(),
        }
    }

    /// The state whose document is `value` written as a structured value;
    /// the state with an empty document where `value` is not written as an
    /// object. Fails as writing `value` fails.
    pub fn from_typed<T: TransferObject>(value: T) -> (made: Result<State, RunError>)
        ensures
            match made {
                Ok(state) => exists|written: JsonValue|
                    #[trigger] value.writes(Ok(written)) && match written {
                        JsonValue::Object(object) => state.document() == object,
                        _ => state.document()@ == Map::<Seq<char>, JsonValue>::empty(),
                    },
                Err(error) => value.writes(Err(error)),
            },
    {
        match value.to_value() {
            Ok(written) => {
                let state = State::from_json_value(written);
                assert(value.writes(Ok(written)));
                Ok(state)
            },
            Err(error) => Err(error),
        }
    }

    /// The document, handed out.
    pub fn into_json_value(self) -> (value: JsonValue)
        ensures
            value == JsonValue::Object(self.document()),
    {
        JsonValue::Object(self.document)
    }

    /// The document, for reading.
    pub fn as_object(&self) -> (object: &JsonObject)
        ensures
            *object == self.document(),
    {
        &self.document
    }

    /// Applies `modification` to the document as a whole.
    pub fn apply_modification(&mut self, modification: Modification)
        ensures
            modification.turns(old(self).document()@, final(self).document()@),
    {
        self.document.apply(modification);
    }

    /// Evaluates `view` on the document.
    pub fn fetch_view<V: StateView<JsonObject>>(&self, view: V) -> (data: V::Data)
        ensures
            view.projects(&self.document(), data),
    {
        view.view(&self.document)
    }
}

impl Default for State {
    fn default() -> (state: Self)
        ensures
            state.document()@ == Map::<Seq<char>, JsonValue>::empty(),
    {
        State::new()
    }
}

/// Two appends to the array of one field, applied one after the other, leave
/// every appended value in the array, whichever of the two comes first: the
/// array then holds what it held before, followed by the values of the append
/// that came first, followed by those of the other.
pub proof fn law_appends_are_kept(
    field: String,
    first: Vec<JsonValue>,
    second: Vec<JsonValue>,
    before: Map<Seq<char>, JsonValue>,
    between: Map<Seq<char>, JsonValue>,
    after: Map<Seq<char>, JsonValue>,
)
    requires
        Modification::ExtendArray(field, first).turns(before, between),
        Modification::ExtendArray(field, second).turns(between, after),
    ensures
        array_at(after, field@) == array_at(before, field@) + first@ + second@,
        forall|i: int| 0 <= i < first@.len() ==> array_at(after, field@).contains(#[trigger] first@[i]),
        forall|i: int|
            0 <= i < second@.len() ==> array_at(after, field@).contains(#[trigger] second@[i]),
        forall|other: Seq<char>|
            other != field@ ==> after.contains_key(other) == before.contains_key(other),
        forall|other: Seq<char>|
            other != field@ && before.contains_key(other) ==> after[other] == before[other],
{
    let held = array_at(before, field@);
    let all = array_at(after, field@);
    assert(all =~= held + first@ + second@);
    assert forall|i: int| 0 <= i < first@.len() implies all.contains(#[trigger] first@[i]) by {
        assert(all[held.len() + i] == first@[i]);
    }
    assert forall|i: int| 0 <= i < second@.len() implies all.contains(#[trigger] second@[i]) by {
        assert(all[held.len() + first@.len() + i] == second@[i]);
    }
    assert forall|other: Seq<char>| other != field@ implies after.contains_key(other)
        == before.contains_key(other) by {
        assert(after.remove(field@).contains_key(other) == between.remove(field@).contains_key(other));
        assert(between.remove(field@).contains_key(other) == before.remove(field@).contains_key(other));
    }
    assert forall|other: Seq<char>| other != field@ && before.contains_key(other) implies after[other]
        == before[other] by {
        assert(after.remove(field@)[other] == between.remove(field@)[other]);
        assert(between.remove(field@)[other] == before.remove(field@)[other]);
    }
}

/// However many appends to the array of one field are applied one after the
/// other, in whatever order, none is lost: the array of the last document
/// holds every appended value.
pub proof fn law_no_append_is_lost(
    field: String,
    appends: Seq<Vec<JsonValue>>,
    documents: Seq<Map<Seq<char>, JsonValue>>,
    which: int,
    item: int,
)
    requires
        documents.len() == appends.len() + 1,
        forall|i: int|
            0 <= i < appends.len() ==> Modification::ExtendArray(field, #[trigger] appends[i]).turns(
                documents[i],
                documents[i + 1],
            ),
        0 <= which < appends.len(),
        0 <= item < appends[which]@.len(),
    ensures
        array_at(documents.last(), field@).contains(appends[which]@[item]),
{
    let value = appends[which]@[item];
    let held = array_at(documents[which], field@);
    let grown = array_at(documents[which + 1], field@);
    assert(Modification::ExtendArray(field, appends[which]).turns(
        documents[which],
        documents[which + 1],
    ));
    assert(grown =~= held + appends[which]@);
    assert(grown[held.len() + item] == value);
    lemma_appended_stays(field, appends, documents, which + 1, held.len() + item);
}

/// What the array of the field holds after some of the appends, it holds at
/// the same place after all of them.
proof fn lemma_appended_stays(
    field: String,
    appends: Seq<Vec<JsonValue>>,
    documents: Seq<Map<Seq<char>, JsonValue>>,
    after: int,
    at: int,
)
    requires
        documents.len() == appends.len() + 1,
        forall|i: int|
            0 <= i < appends.len() ==> Modification::ExtendArray(field, #[trigger] appends[i]).turns(
                documents[i],
                documents[i + 1],
            ),
        0 <= after <= appends.len(),
        0 <= at < array_at(documents[after], field@).len(),
    ensures
        at < array_at(documents.last(), field@).len(),
        array_at(documents.last(), field@)[at] == array_at(documents[after], field@)[at],
        array_at(documents.last(), field@).contains(array_at(documents[after], field@)[at]),
    decreases appends.len() - after,
{
    if after < appends.len() {
        let held = array_at(documents[after], field@);
        let grown = array_at(documents[after + 1], field@);
        assert(Modification::ExtendArray(field, appends[after]).turns(
            documents[after],
            documents[after + 1],
        ));
        assert(grown =~= held + appends[after]@);
        lemma_appended_stays(field, appends, documents, after + 1, at);
    }
}

/// Increments of two fields give the same document in either order.
pub proof fn law_increments_commute(
    one: String,
    other: String,
    before: Map<Seq<char>, JsonValue>,
    this_way: Map<Seq<char>, JsonValue>,
    that_way: Map<Seq<char>, JsonValue>,
)
    requires
        Modification::Sequence(
            Box::new(Modification::Increment(one)),
            Box::new(Modification::Increment(other)),
        ).turns(before, this_way),
        Modification::Sequence(
            Box::new(Modification::Increment(other)),
            Box::new(Modification::Increment(one)),
        ).turns(before, that_way),
    ensures
        this_way == that_way,
{
    reveal_with_fuel(Modification::turns, 2);
    let via_one = choose|between: Map<Seq<char>, JsonValue>|
        #[trigger] midway(between) && Modification::Increment(one).turns(before, between)
            && Modification::Increment(other).turns(between, this_way);
    let via_other = choose|between: Map<Seq<char>, JsonValue>|
        #[trigger] midway(between) && Modification::Increment(other).turns(before, between)
            && Modification::Increment(one).turns(between, that_way);
    assert(this_way =~= that_way);
}

/// What a step hands in to change the document: a modification, or a failure
/// in its place.
pub trait IntoStateModification: Sized {
    /// `outcome` is what this value becomes.
    open spec fn becomes(self, outcome: Result<Modification, RunError>) -> bool {
        true
    }

    /// The modification, or the failure.
    fn into_state(self) -> (outcome: Result<Modification, RunError>)
        ensures
            self.becomes(outcome),
    ;
}

impl IntoStateModification for Modification {
    open spec fn becomes(self, outcome: Result<Modification, RunError>) -> bool {
        outcome == Ok::<Modification, RunError>(self)
    }

    fn into_state(self) -> (outcome: Result<Modification, RunError>) {
        Ok(self)
    }
}

impl<T: IntoStateModification> IntoStateModification for Result<T, RunError> {
    open spec fn becomes(self, outcome: Result<Modification, RunError>) -> bool {
        match self {
            Ok(value) => value.becomes(outcome),
            Err(error) => outcome == Err::<Modification, RunError>(error),
        }
    }

    fn into_state(self) -> (outcome: Result<Modification, RunError>) {
        match self {
            Ok(value) => value.into_state(),
            Err(error) => Err(error),
        }
    }
}

/// A value together with the rule by which a later value is merged into it.
pub struct Annotated<T, M> {
    pub value: T,
    pub merge: M,
}

/// A rule that merges a later value into an earlier one.
pub trait Merger<T> {
    /// The merged value.
    spec fn merged(prev: T, input: T) -> T;

    /// Merges `input` into `prev`.
    fn merge(prev: T, input: T) -> (out: T)
        ensures
            out == Self::merged(prev, input),
    ;
}

/// A value into which a later value of its type can be merged.
pub trait Merge: Sized {
    /// The merged value.
    spec fn merged(prev: Self, input: Self) -> Self;

    /// Merges `input` into `prev`.
    fn merge(prev: Self, input: Self) -> (out: Self)
        ensures
            out == Self::merged(prev, input),
    ;
}

/// The rule by which the later value replaces the earlier one.
pub struct Replace;

impl<T> Merger<T> for Replace {
    open spec fn merged(prev: T, input: T) -> T {
        input
    }

    fn merge(_prev: T, input: T) -> (out: T) {
        input
    }
}

impl<T, M: Merger<T>> Merge for Annotated<T, M> {
    /// The values are merged by the rule; the rule of the earlier value stays.
    open spec fn merged(prev: Self, input: Self) -> Self {
        Annotated { value: M::merged(prev.value, input.value), merge: prev.merge }
    }

    fn merge(prev: Self, input: Self) -> (out: Self) {
        Annotated { value: M::merge(prev.value, input.value), merge: prev.merge }
    }
}

} // verus!
