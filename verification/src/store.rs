//! The key-value store.

use serde_json::Value;
use vstd::prelude::*;

use crate::error::Error;
use crate::key::{Key, KeyModel, Scope};

verus! {

/// A stored value, which the store and the queue hand on without looking into it.
#[verifier::external_type_specification]
#[verifier::external_body]
pub struct ExValue(serde_json::Value);

/// `clone` of a JSON value returns the same value.
pub assume_specification[ <serde_json::Value as Clone>::clone ](
    value: &serde_json::Value,
) -> (copy: serde_json::Value)
    ensures
        copy == *value,
;

/// A request to a backend.
#[verifier::ext_equal]
pub enum Request {
    /// To list the keys in a scope.
    List { scope: Seq<Seq<char>> },
    /// To read the value under a key.
    Get { key: KeyModel },
    /// To store a value under a key.
    Store { key: KeyModel, value: Value },
    /// To move the value under one key to another.
    Move { from: KeyModel, to: KeyModel },
    /// To delete the entry under a key.
    Delete { key: KeyModel },
}

/// What a backend answers to a request that it serves.
#[verifier::ext_equal]
pub enum Answer {
    /// The listed keys.
    Keys(Seq<KeyModel>),
    /// The value under a key, if there is one.
    Found(Option<Value>),
    /// That the change was made.
    Done,
}

/// A request, and what the backend answered.
#[verifier::ext_equal]
pub struct Answered {
    pub request: Request,
    pub reply: Result<Answer, Error>,
}

/// The reply to a request to list keys.
pub open spec fn listed(result: Result<Vec<Key>, Error>) -> Result<Answer, Error> {
    match result {
        Ok(keys) => Ok(Answer::Keys(models(keys@))),
        Err(error) => Err(error),
    }
}

/// The reply to a request to read a value.
pub open spec fn found(result: Result<Option<Value>, Error>) -> Result<Answer, Error> {
    match result {
        Ok(value) => Ok(Answer::Found(value)),
        Err(error) => Err(error),
    }
}

/// The reply to a request to change the entries.
pub open spec fn done(result: Result<(), Error>) -> Result<Answer, Error> {
    match result {
        Ok(()) => Ok(Answer::Done),
        Err(error) => Err(error),
    }
}

/// The request to list a scope, answered with these keys.
pub open spec fn listing(scope: Seq<Seq<char>>, keys: Seq<KeyModel>) -> Answered {
    Answered { request: Request::List { scope }, reply: Ok(Answer::Keys(keys)) }
}

/// The requests of a record that came after those of an earlier record.
pub open spec fn made_since(earlier: Seq<Answered>, record: Seq<Answered>) -> Seq<Answered> {
    record.skip(earlier.len() as int)
}

/// Whether `keys` are the keys of the entries in a scope, each of them once, in some order.
pub open spec fn is_listing(
    keys: Seq<KeyModel>,
    entries: Map<KeyModel, Value>,
    scope: Seq<Seq<char>>,
) -> bool {
    &&& keys.no_duplicates()
    &&& forall|key: KeyModel| #[trigger]
        keys.contains(key) <==> entries.contains_key(key) && key.scope == scope
}

/// What a list of keys stands for.
pub open spec fn models(keys: Seq<Key>) -> Seq<KeyModel> {
    keys.map_values(|key: Key| key@)
}

/// The entries after the value under one key was moved to another.
pub open spec fn moved(
    entries: Map<KeyModel, Value>,
    from: KeyModel,
    to: KeyModel,
) -> Map<KeyModel, Value> {
    entries.remove(from).insert(to, entries[from])
}

/// A place where entries are kept.
///
/// A backend may refuse a request. It then answers with an error and keeps its entries as they
/// were. One that has no refusals serves every request.
///
/// The record of the requests is for contracts alone: it lets them say what was asked of the
/// backend, what it answered, and what follows from the answer. Reading leaves a trace in it, so
/// that reading, too, borrows the backend exclusively.
pub trait KeyValueStoreBackend {
    /// The entries of the store.
    spec fn entries(&self) -> Map<KeyModel, Value>;

    /// The errors with which the backend may refuse a request, whatever the request is.
    spec fn refusals(&self) -> Set<Error>;

    /// The requests that the backend was given, in their order, with its replies.
    spec fn requests(&self) -> Seq<Answered>;

    /// Lists the keys in exactly this scope.
    fn list_keys(&mut self, scope: &Scope) -> (result: Result<Vec<Key>, Error>)
        ensures
            match result {
                Ok(keys) => is_listing(models(keys@), old(self).entries(), scope@),
                Err(error) => old(self).refusals().contains(error),
            },
            final(self).entries() == old(self).entries(),
            final(self).refusals() == old(self).refusals(),
            final(self).requests() == old(self).requests().push(
                Answered { request: Request::List { scope: scope@ }, reply: listed(result) },
            ),
    ;

    /// Returns the value under a key, if there is one.
    fn get(&mut self, key: &Key) -> (result: Result<Option<Value>, Error>)
        ensures
            match result {
                Ok(Some(value)) => old(self).entries().contains_key(key@) && value == old(
                    self,
                ).entries()[key@],
                Ok(None) => !old(self).entries().contains_key(key@),
                Err(error) => old(self).refusals().contains(error),
            },
            final(self).entries() == old(self).entries(),
            final(self).refusals() == old(self).refusals(),
            final(self).requests() == old(self).requests().push(
                Answered { request: Request::Get { key: key@ }, reply: found(result) },
            ),
    ;

    /// Stores a value under a key, in place of the one that was there.
    fn store(&mut self, key: &Key, value: Value) -> (result: Result<(), Error>)
        ensures
            match result {
                Ok(()) => final(self).entries() == old(self).entries().insert(key@, value),
                Err(error) => {
                    &&& final(self).entries() == old(self).entries()
                    &&& old(self).refusals().contains(error)
                },
            },
            final(self).refusals() == old(self).refusals(),
            final(self).requests() == old(self).requests().push(
                Answered { request: Request::Store { key: key@, value }, reply: done(result) },
            ),
    ;

    /// Moves the value under one key to another key, in place of the one that was there.
    fn move_value(&mut self, from: &Key, to: &Key) -> (result: Result<(), Error>)
        ensures
            match result {
                Ok(()) => {
                    &&& old(self).entries().contains_key(from@)
                    &&& final(self).entries() == moved(old(self).entries(), from@, to@)
                },
                Err(error) => {
                    &&& final(self).entries() == old(self).entries()
                    &&& old(self).refusals().contains(error) || (error == Error::UnknownKey && !old(
                        self,
                    ).entries().contains_key(from@))
                },
            },
            final(self).refusals() == old(self).refusals(),
            final(self).requests() == old(self).requests().push(
                Answered { request: Request::Move { from: from@, to: to@ }, reply: done(result) },
            ),
    ;

    /// Deletes the entry under a key.
    fn delete(&mut self, key: &Key) -> (result: Result<(), Error>)
        ensures
            match result {
                Ok(()) => {
                    &&& old(self).entries().contains_key(key@)
                    &&& final(self).entries() == old(self).entries().remove(key@)
                },
                Err(error) => {
                    &&& final(self).entries() == old(self).entries()
                    &&& old(self).refusals().contains(error) || (error == Error::UnknownKey && !old(
                        self,
                    ).entries().contains_key(key@))
                },
            },
            final(self).refusals() == old(self).refusals(),
            final(self).requests() == old(self).requests().push(
                Answered { request: Request::Delete { key: key@ }, reply: done(result) },
            ),
    ;
}

/// A store on top of a backend.
///
/// Operations borrow the store exclusively, so no other operation can come in between their
/// requests to the backend.
pub struct KeyValueStore<B> {
    pub inner: B,
}

impl<B: KeyValueStoreBackend> View for KeyValueStore<B> {
    type V = Map<KeyModel, Value>;

    open spec fn view(&self) -> Map<KeyModel, Value> {
        self.inner.entries()
    }
}

impl<B: KeyValueStoreBackend> KeyValueStore<B> {
    /// A store on top of this backend.
    pub fn new(inner: B) -> (store: Self)
        ensures
            store.inner == inner,
    {
        KeyValueStore { inner }
    }
}

} // verus!
