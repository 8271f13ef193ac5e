//! The vocabulary of the scheduler: identifiers' values, callbacks and their ids.

use vstd::prelude::*;
use vstd::string::StrSliceExecFns;

verus! {

/// The current value of a state field that a callback reads.
pub struct Input<T> {
    pub value: T,
}

/// Whether a callback wrote one of its outputs, and with which value.
#[derive(Clone, Copy)]
pub enum OutputState<T> {
    NoChange,
    Updated(T),
}

/// A state field that a callback may write.
pub struct Output<T> {
    pub state: OutputState<T>,
}

impl<T: Clone> Output<T> {
    /// An output that has not been written.
    pub fn new() -> (out: Output<T>)
        ensures
            out.state is NoChange,
    {
        Output { state: OutputState::NoChange }
    }

    /// Records `value` as the new value of the field.
    pub fn set(&mut self, value: T)
        ensures
            final(self).state == OutputState::Updated(value),
    {
        self.state = OutputState::Updated(value);
    }
}

/// Where a callback must run.
#[derive(Clone, Copy, Debug, PartialEq, Eq, Structural)]
pub enum CallbackType {
    /// Only the remote executor can run it.
    Server,
    /// It can run locally.
    Client,
}

/// A pure function over the state, with the identifiers it reads and writes.
///
/// `I` is the identifier type. `F` is the type of the body, which maps the
/// state it is shown to the values it produced; `cb` is `None` in a binary
/// that was built without the body.
#[derive(Clone)]
pub struct Callback<I, F> {
    pub name: &'static str,
    pub cb: Option<F>,
    pub inputs: Vec<I>,
    pub outputs: Vec<I>,
    pub cb_type: CallbackType,
}

impl<I, F> Callback<I, F> {
    /// A callback with the given name, body, declarations and location.
    pub fn new(
        name: &'static str,
        cb: Option<F>,
        inputs: Vec<I>,
        outputs: Vec<I>,
        cb_type: CallbackType,
    ) -> (callback: Self)
        ensures
            callback.name == name,
            callback.cb == cb,
            callback.inputs == inputs,
            callback.outputs == outputs,
            callback.cb_type == cb_type,
    {
        Self { name, cb, inputs, outputs, cb_type }
    }

    /// True when the callback can only run on the server.
    pub open spec fn is_remote(&self) -> bool {
        self.cb_type == CallbackType::Server
    }

    /// True when the callback reads `identifier`.
    pub open spec fn reads(&self, identifier: I) -> bool {
        self.inputs@.contains(identifier)
    }

    /// True when the callback writes `identifier`.
    pub open spec fn writes(&self, identifier: I) -> bool {
        self.outputs@.contains(identifier)
    }
}

/// Whether two texts hold the same characters.
pub fn same_text(a: &str, b: &str) -> (same: bool)
    ensures
        same == (a@ == b@),
{
    let n = a.unicode_len();
    if n != b.unicode_len() {
        return false;
    }
    let mut i: usize = 0;
    while i < n
        invariant
            n == a@.len(),
            n == b@.len(),
            0 <= i <= n,
            forall|j: int| 0 <= j < i ==> a@[j] == b@[j],
        decreases n - i,
    {
        if a.get_char(i) != b.get_char(i) {
            return false;
        }
        i += 1;
    }
    proof {
        assert(a@ =~= b@);
    }
    true
}

/// Two callbacks are equal when they have the same name.
impl<I, F> PartialEq for Callback<I, F> {
    fn eq(&self, other: &Callback<I, F>) -> (equal: bool) {
        same_text(self.name, other.name)
    }
}

impl<I, F> vstd::std_specs::cmp::PartialEqSpecImpl for Callback<I, F> {
    open spec fn obeys_eq_spec() -> bool {
        true
    }

    open spec fn eq_spec(&self, other: &Callback<I, F>) -> bool {
        self.name@ == other.name@
    }
}

impl<I, F> Eq for Callback<I, F> {

}

/// The handle of a registered callback: its position in registration order.
#[derive(Clone, Copy, Debug, Hash, PartialEq, Eq, Structural)]
pub struct CallbackId(pub usize);

impl CallbackId {
    /// The position of the callback in the registry's list.
    pub fn callback_index(&self) -> (index: usize)
        ensures
            index == self.0,
    {
        self.0
    }
}

/// A registered callback together with its handle.
#[derive(Clone)]
pub struct CallbackWithId<I, F> {
    pub id: CallbackId,
    pub callback: Callback<I, F>,
}

/// Names the identifier and value types of one application state.
pub trait StateTypes {
    type Identifier;

    type Value;
}

/// Projects a value onto the identifier of the field it belongs to.
pub trait ValueToIdentifier<I> {
    /// The identifier of the field that this value belongs to.
    spec fn identifier(&self) -> I;

    /// The identifier of the field that this value belongs to.
    fn to_identifier(&self) -> (id: I)
        ensures
            id == self.identifier(),
    ;
}

/// A callback that works on a whole state of type `S` through a body of
/// type `F`, which returns the values it changed.
#[derive(Clone)]
pub struct StateCallback<I, F> {
    pub name: &'static str,
    pub cb: F,
    pub inputs: Vec<I>,
    pub outputs: Vec<I>,
}

impl<I, F> StateCallback<I, F> {
    /// A state callback with the given name, body and declarations.
    pub fn new(name: &'static str, cb: F, inputs: Vec<I>, outputs: Vec<I>) -> (callback: Self)
        ensures
            callback.name == name,
            callback.cb == cb,
            callback.inputs == inputs,
            callback.outputs == outputs,
    {
        Self { name, cb, inputs, outputs }
    }
}

/// A registered state callback together with its position.
#[derive(Clone)]
pub struct StateCallbackWithId<I, F> {
    pub id: usize,
    pub callback: StateCallback<I, F>,
}

/// A state that can take in a batch of changed values.
pub trait ApplyUpdates<V> {
    /// Stores each of `updates` in the state.
    fn apply_updates(&mut self, updates: &Vec<V>);
}

} // verus!
