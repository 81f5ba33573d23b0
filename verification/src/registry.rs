//! A registry of component codecs, by type key.
//!
//! A codec is a pair of functions: one reads a typed value out of an opaque
//! one, the other writes a typed value back. The registry calls them; what
//! they do is theirs to say, so the contracts here speak of it through the
//! functions' own `ensures`.

use crate::table::NameTable;
use core::marker::PhantomData;
use serde_json::Value;
use vstd::prelude::*;

verus! {

/// The text of the error for a type key without a codec.
pub open spec fn unregistered_text(type_key: Seq<char>) -> Seq<char> {
    "No deserialization function found for type: "@ + type_key
}

/// The text of the error for a type key without a codec, where a typed value
/// was to be written.
pub open spec fn unwritable_text(type_key: Seq<char>) -> Seq<char> {
    "No serialization function found for type: "@ + type_key
}

/// The text of the error for a typed value that its codec does not write.
pub open spec fn unwritten_text(type_key: Seq<char>) -> Seq<char> {
    "Failed to re-serialize for: "@ + type_key
}

/// Whether `out` is what a value of type `type_key` comes to once its codec
/// has written `encoded`: the value written, or the error that nothing was.
pub open spec fn settled(type_key: Seq<char>, encoded: Option<Value>, out: Result<Value, String>) -> bool {
    match encoded {
        Some(value) => out == Ok::<Value, String>(value),
        None => out.is_err() && out.unwrap_err()@ == unwritten_text(type_key),
    }
}

/// Turns what a codec has written for a value of type `type_key` into the
/// result of normalising it.
pub fn settle(type_key: &str, encoded: Option<Value>) -> (out: Result<Value, String>)
    ensures
        settled(type_key@, encoded, out),
{
    match encoded {
        Some(value) => Ok(value),
        None => {
            let mut text = "Failed to re-serialize for: ".to_owned();
            text.append(type_key);
            Err(text)
        },
    }
}

/// The codecs, each under its type key. `T` is the type of a typed value,
/// `D` that of the functions that read one, `S` that of those that write one.
pub struct TypeRegistry<T, D, S> {
    codecs: NameTable<(D, S)>,
    typed: PhantomData<T>,
}

impl<T, D: Fn(&Value) -> Result<T, String>, S: Fn(&T) -> Option<Value>> TypeRegistry<T, D, S> {
    /// The type keys, in the order of their first registration.
    pub closed spec fn keys(&self) -> Seq<Seq<char>> {
        self.codecs.names()
    }

    /// The codec of each key, in the order of `keys`.
    pub closed spec fn codecs(&self) -> Seq<(D, S)> {
        self.codecs.values()
    }

    /// Whether both functions of `codec` can be called on every value.
    pub open spec fn callable(codec: (D, S)) -> bool {
        &&& forall|value: &Value| #[trigger] codec.0.requires((value,))
        &&& forall|typed: &T| #[trigger] codec.1.requires((typed,))
    }

    /// No key occurs twice, and every codec can be called on every value.
    pub closed spec fn wf(&self) -> bool {
        &&& self.codecs.wf()
        &&& forall|i: int| 0 <= i < self.codecs.values().len() ==> Self::callable(#[trigger] self.codecs.values()[i])
    }

    /// The codec registered under `type_key`, if there is one.
    pub open spec fn codec(&self, type_key: Seq<char>) -> Option<(D, S)> {
        if self.keys().contains(type_key) {
            Some(self.codecs()[self.keys().index_of(type_key)])
        } else {
            None
        }
    }

    /// Whether `out` comes of what `writer` can write for `typed`.
    pub open spec fn written(writer: S, type_key: Seq<char>, typed: T, out: Result<Value, String>) -> bool {
        exists|encoded: Option<Value>| #[trigger] writer.ensures((&typed,), encoded) && settled(type_key, encoded, out)
    }

    /// Whether `codec` can read `decoded` out of `value`, and `out` comes of
    /// it: the reader's error, or what is written for the typed value.
    pub open spec fn read_through(
        codec: (D, S),
        type_key: Seq<char>,
        value: Value,
        decoded: Result<T, String>,
        out: Result<Value, String>,
    ) -> bool {
        &&& codec.0.ensures((&value,), decoded)
        &&& match decoded {
            Err(e) => out == Err::<Value, String>(e),
            Ok(typed) => Self::written(codec.1, type_key, typed, out),
        }
    }

    /// Whether `out` can be the result of normalising `value` as a value of
    /// type `type_key`: the error for a key without a codec; else the
    /// reader's error, or what comes of the writer's result for a typed value
    /// that the reader gave.
    pub open spec fn normalizes(&self, type_key: Seq<char>, value: Value, out: Result<Value, String>) -> bool {
        match self.codec(type_key) {
            None => out.is_err() && out.unwrap_err()@ == unregistered_text(type_key),
            Some(codec) => exists|decoded: Result<T, String>| #[trigger]
                Self::read_through(codec, type_key, value, decoded, out),
        }
    }

    pub fn new() -> (registry: Self)
        ensures
            registry.wf(),
            registry.keys() == Seq::<Seq<char>>::empty(),
    {
        TypeRegistry { codecs: NameTable::new(), typed: PhantomData }
    }

    /// Registers a codec under `type_key`, in place of any that is
    /// registered under it.
    pub fn register(&mut self, type_key: &str, serialize_fn: S, deserialize_fn: D)
        requires
            old(self).wf(),
            Self::callable((deserialize_fn, serialize_fn)),
        ensures
            final(self).wf(),
            final(self).codec(type_key@) == Some((deserialize_fn, serialize_fn)),
            forall|other: Seq<char>| other != type_key@ ==> #[trigger] final(self).codec(other) == old(self).codec(other),
    {
        let ghost before = self.codecs;
        let _ = self.codecs.insert(type_key.to_owned(), (deserialize_fn, serialize_fn));
        proof {
            let after = self.codecs;
            after.lemma_position_holds(type_key@);
            assert forall|other: Seq<char>| other != type_key@ implies #[trigger] self.codec(other) == old(
                self,
            ).codec(other) by {
                after.lemma_position_elsewhere(before, other);
                after.lemma_position_holds(other);
                before.lemma_position_holds(other);
            }
        }
    }

    /// Whether a codec is registered under `type_key`.
    pub fn is_registered(&self, type_key: &str) -> (found: bool)
        ensures
            found == self.codec(type_key@).is_some(),
    {
        let key = type_key.to_owned();
        self.codecs.find(&key).is_some()
    }

    /// Whether `out` can be the result of writing `typed` as a value of type
    /// `type_key`: the error for a key without a codec, else what comes of
    /// the writer's result.
    pub open spec fn writes(&self, type_key: Seq<char>, typed: T, out: Result<Value, String>) -> bool {
        match self.codec(type_key) {
            None => out.is_err() && out.unwrap_err()@ == unwritable_text(type_key),
            Some(codec) => Self::written(codec.1, type_key, typed, out),
        }
    }

    /// Writes `typed` as a value of type `type_key`, through its codec.
    pub fn serialize_value(&self, type_key: &str, typed: &T) -> (out: Result<Value, String>)
        requires
            self.wf(),
        ensures
            self.writes(type_key@, *typed, out),
    {
        let key = type_key.to_owned();
        match self.codecs.find(&key) {
            Some(i) => {
                proof {
                    self.codecs.lemma_position_holds(type_key@);
                }
                let codec = self.codecs.value_at(i);
                assert(Self::callable(*codec));
                assert(self.codec(type_key@) == Some(*codec));
                let encoded = (codec.1)(typed);
                let out = settle(type_key, encoded);
                assert(Self::written(self.codec(type_key@).unwrap().1, type_key@, *typed, out));
                out
            },
            None => {
                let mut text = "No serialization function found for type: ".to_owned();
                text.append(type_key);
                Err(text)
            },
        }
    }

    /// Normalises `value` as a value of type `type_key`: its codec reads a
    /// typed value out of it and writes that back.
    pub fn deserialize_value(&self, type_key: &str, value: &Value) -> (out: Result<Value, String>)
        requires
            self.wf(),
        ensures
            self.normalizes(type_key@, *value, out),
    {
        let key = type_key.to_owned();
        match self.codecs.find(&key) {
            Some(i) => {
                proof {
                    self.codecs.lemma_position_holds(type_key@);
                }
                let codec = self.codecs.value_at(i);
                assert(Self::callable(*codec));
                assert(self.codec(type_key@) == Some(*codec));
                let decoded = (codec.0)(value);
                let ghost read = decoded;
                match decoded {
                    Ok(typed) => {
                        let encoded = (codec.1)(&typed);
                        let out = settle(type_key, encoded);
                        assert(Self::written(codec.1, type_key@, typed, out));
                        assert(Self::read_through(self.codec(type_key@).unwrap(), type_key@, *value, read, out));
                        assert(self.normalizes(type_key@, *value, out));
                        out
                    },
                    Err(e) => {
                        let out = Err(e);
                        assert(Self::read_through(self.codec(type_key@).unwrap(), type_key@, *value, read, out));
                        assert(self.normalizes(type_key@, *value, out));
                        out
                    },
                }
            },
            None => {
                let mut text = "No deserialization function found for type: ".to_owned();
                text.append(type_key);
                let out = Err(text);
                assert(self.codec(type_key@).is_none());
                assert(self.normalizes(type_key@, *value, out));
                out
            },
        }
    }

    /// Whether `after` can be `before` with each value normalised as a value
    /// of the type that its key names.
    pub open spec fn resolves(&self, before: Seq<(String, Value)>, after: Seq<(String, Value)>) -> bool {
        &&& after.len() == before.len()
        &&& forall|j: int|
            0 <= j < before.len() ==> (#[trigger] after[j]).0@ == before[j].0@ && self.normalizes(
                before[j].0@,
                before[j].1,
                Ok(after[j].1),
            )
    }

    /// Whether normalising `pairs` in order can come to `done` for the first
    /// `j` of them and then fail on the next with the error `text`.
    pub open spec fn fails_at(
        &self,
        pairs: Seq<(String, Value)>,
        j: int,
        done: Seq<(String, Value)>,
        text: String,
    ) -> bool {
        &&& 0 <= j < pairs.len()
        &&& self.resolves(pairs.take(j), done)
        &&& self.normalizes(pairs[j].0@, pairs[j].1, Err(text))
    }

    /// Whether normalising `pairs` in order can fail with the error
    /// `reason`, on the first of them that is not normalised.
    pub open spec fn refuses(&self, pairs: Seq<(String, Value)>, reason: Seq<char>) -> bool {
        exists|j: int, done: Seq<(String, Value)>, text: String| #[trigger]
            self.fails_at(pairs, j, done, text) && text@ == reason
    }

    /// Whether normalising any of `pairs` can only give the value back.
    pub open spec fn faithful_on(&self, pairs: Seq<(String, Value)>) -> bool {
        forall|j: int, out: Result<Value, String>|
            0 <= j < pairs.len() && #[trigger] self.normalizes(pairs[j].0@, pairs[j].1, out) ==> out == Ok::<
                Value,
                String,
            >(pairs[j].1)
    }

    /// Normalises the value of each of `pairs` as a value of the type that
    /// its key names. The first failure ends it, with that error.
    pub fn resolve_components(&self, pairs: &Vec<(String, Value)>) -> (result: Result<Vec<(String, Value)>, String>)
        requires
            self.wf(),
        ensures
            match result {
                Ok(after) => self.resolves(pairs@, after@),
                Err(reason) => self.refuses(pairs@, reason@),
            },
    {
        let mut after: Vec<(String, Value)> = Vec::new();
        let mut j: usize = 0;
        while j < pairs.len()
            invariant
                self.wf(),
                j <= pairs@.len(),
                after@.len() == j,
                forall|k: int|
                    0 <= k < j ==> (#[trigger] after@[k]).0@ == pairs@[k].0@ && self.normalizes(
                        pairs@[k].0@,
                        pairs@[k].1,
                        Ok(after@[k].1),
                    ),
            decreases pairs@.len() - j,
        {
            match self.deserialize_value(pairs[j].0.as_str(), &pairs[j].1) {
                Ok(value) => {
                    after.push((pairs[j].0.clone(), value));
                },
                Err(reason) => {
                    assert(self.resolves(pairs@.take(j as int), after@));
                    assert(self.fails_at(pairs@, j as int, after@, reason));
                    return Err(reason);
                },
            }
            j += 1;
        }
        Ok(after)
    }

    /// Under a key without a codec no value is normalised.
    pub proof fn lemma_unregistered_never_resolves(&self, before: Seq<(String, Value)>, after: Seq<(String, Value)>, j: int)
        requires
            0 <= j < before.len(),
            self.codec(before[j].0@).is_none(),
        ensures
            !self.resolves(before, after),
    {
        if self.resolves(before, after) {
            assert(self.normalizes(before[j].0@, before[j].1, Ok(after[j].1)));
        }
    }

    /// Where normalising can only give each value back, it does not fail,
    /// and what it gives has the same keys and values.
    pub proof fn lemma_faithful(&self, before: Seq<(String, Value)>)
        requires
            self.faithful_on(before),
        ensures
            forall|reason: Seq<char>| !self.refuses(before, reason),
            forall|after: Seq<(String, Value)>, j: int|
                #![trigger self.resolves(before, after), after[j]]
                self.resolves(before, after) && 0 <= j < before.len() ==> after[j].0@ == before[j].0@ && after[j].1
                    == before[j].1,
    {
        assert forall|reason: Seq<char>| !self.refuses(before, reason) by {
            if self.refuses(before, reason) {
                let (j, done, text) = choose|j: int, done: Seq<(String, Value)>, text: String| #[trigger]
                    self.fails_at(before, j, done, text) && text@ == reason;
                assert(Err::<Value, String>(text) == Ok::<Value, String>(before[j].1));
            }
        }
        assert forall|after: Seq<(String, Value)>, j: int|
            #![trigger self.resolves(before, after), after[j]]
            self.resolves(before, after) && 0 <= j < before.len() implies after[j].0@ == before[j].0@ && after[j].1
                == before[j].1 by {
            assert(self.normalizes(before[j].0@, before[j].1, Ok(after[j].1)));
        }
    }
}

} // verus!
