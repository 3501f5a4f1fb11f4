//! A file's metadata: values under names.

use vstd::prelude::*;

use crate::text;

verus! {

pub enum Value {
    Int(i64),
    Bool(bool),
    Text(String),
    Ints(Vec<i64>),
    Texts(Vec<String>),
}

pub struct Entry {
    pub key: String,
    pub value: Value,
}

/// A file's key-value pairs. The first of a key counts.
pub struct Metadata {
    pub entries: Vec<Entry>,
}

/// Why a value cannot be read: it is missing, or it is of another kind.
pub struct MetaError {
    pub key: String,
    pub missing: bool,
}

pub const MISSING_KEY: &'static str = "missing metadata key '$0'";

pub const WRONG_KIND: &'static str = "metadata key '$0' holds another kind of value";

impl MetaError {
    /// What went wrong, in words.
    pub fn message(&self) -> (s: String)
        ensures
            s@ == text::filled(
                if self.missing {
                    MISSING_KEY@
                } else {
                    WRONG_KIND@
                },
                seq![self.key@],
            ),
    {
        broadcast use crate::text::lemma_filled_args;

        text::Args::new().text(self.key.as_str()).fill(
            if self.missing {
                MISSING_KEY
            } else {
                WRONG_KIND
            },
        )
    }
}

/// The value under a key.
pub open spec fn value_at(entries: Seq<Entry>, key: Seq<char>) -> Option<Value>
    decreases entries.len(),
{
    if entries.len() == 0 {
        None
    } else if entries[0].key@ == key {
        Some(entries[0].value)
    } else {
        value_at(entries.skip(1), key)
    }
}

/// What reading a value of one kind comes to; an error says whether the key is
/// missing.
pub open spec fn int_at(meta: Metadata, key: Seq<char>) -> Result<i64, bool> {
    match value_at(meta.entries@, key) {
        Some(Value::Int(v)) => Ok(v),
        Some(_) => Err(false),
        None => Err(true),
    }
}

pub open spec fn count_at(meta: Metadata, key: Seq<char>) -> Result<usize, bool> {
    match value_at(meta.entries@, key) {
        Some(Value::Int(v)) => if 0 <= v <= usize::MAX {
            Ok(v as usize)
        } else {
            Err(false)
        },
        Some(_) => Err(false),
        None => Err(true),
    }
}

pub open spec fn text_at(meta: Metadata, key: Seq<char>) -> Result<Seq<char>, bool> {
    match value_at(meta.entries@, key) {
        Some(Value::Text(v)) => Ok(v@),
        Some(_) => Err(false),
        None => Err(true),
    }
}

pub open spec fn ints_at(meta: Metadata, key: Seq<char>) -> Result<Seq<i64>, bool> {
    match value_at(meta.entries@, key) {
        Some(Value::Ints(v)) => Ok(v@),
        Some(_) => Err(false),
        None => Err(true),
    }
}

pub open spec fn texts_at(meta: Metadata, key: Seq<char>) -> Result<Seq<String>, bool> {
    match value_at(meta.entries@, key) {
        Some(Value::Texts(v)) => Ok(v@),
        Some(_) => Err(false),
        None => Err(true),
    }
}

/// Whether an error names a key and says the right thing of it.
pub open spec fn blames(error: MetaError, key: Seq<char>, missing: bool) -> bool {
    error.key@ == key && error.missing == missing
}

fn fault(key: &str, missing: bool) -> (error: MetaError)
    ensures
        blames(error, key@, missing),
{
    MetaError { key: key.to_owned(), missing }
}

impl Metadata {
    pub fn get(&self, key: &str) -> (value: Option<&Value>)
        ensures
            match value {
                Some(v) => value_at(self.entries@, key@) == Some(*v),
                None => value_at(self.entries@, key@) is None,
            },
    {
        let mut i: usize = 0;
        assert(self.entries@.skip(0) =~= self.entries@);
        while i < self.entries.len()
            invariant
                i <= self.entries@.len(),
                value_at(self.entries@.skip(i as int), key@) == value_at(self.entries@, key@),
            decreases self.entries@.len() - i,
        {
            let ghost rest = self.entries@.skip(i as int);
            assert(rest[0] == self.entries@[i as int]);
            assert(rest.skip(1) =~= self.entries@.skip(i as int + 1));
            if text::same(self.entries[i].key.as_str(), key) {
                return Some(&self.entries[i].value);
            }
            i = i + 1;
        }
        None
    }

    pub fn contains(&self, key: &str) -> (yes: bool)
        ensures
            yes == (value_at(self.entries@, key@) is Some),
    {
        match self.get(key) {
            Some(_) => true,
            None => false,
        }
    }

    pub fn integer(&self, key: &str) -> (value: Result<i64, MetaError>)
        ensures
            match (value, int_at(*self, key@)) {
                (Ok(v), Ok(w)) => v == w,
                (Err(e), Err(missing)) => blames(e, key@, missing),
                _ => false,
            },
    {
        match self.get(key) {
            Some(Value::Int(v)) => Ok(*v),
            Some(_) => Err(fault(key, false)),
            None => Err(fault(key, true)),
        }
    }

    /// An integer that counts something.
    pub fn count(&self, key: &str) -> (value: Result<usize, MetaError>)
        ensures
            match (value, count_at(*self, key@)) {
                (Ok(v), Ok(w)) => v == w,
                (Err(e), Err(missing)) => blames(e, key@, missing),
                _ => false,
            },
    {
        match self.get(key) {
            Some(Value::Int(v)) => {
                if *v >= 0 && *v as u64 <= usize::MAX as u64 {
                    Ok(*v as usize)
                } else {
                    Err(fault(key, false))
                }
            },
            Some(_) => Err(fault(key, false)),
            None => Err(fault(key, true)),
        }
    }

    pub fn string(&self, key: &str) -> (value: Result<&str, MetaError>)
        ensures
            match (value, text_at(*self, key@)) {
                (Ok(v), Ok(w)) => v@ == w,
                (Err(e), Err(missing)) => blames(e, key@, missing),
                _ => false,
            },
    {
        match self.get(key) {
            Some(Value::Text(v)) => Ok(v.as_str()),
            Some(_) => Err(fault(key, false)),
            None => Err(fault(key, true)),
        }
    }

    pub fn ints(&self, key: &str) -> (value: Result<&[i64], MetaError>)
        ensures
            match (value, ints_at(*self, key@)) {
                (Ok(v), Ok(w)) => v@ == w,
                (Err(e), Err(missing)) => blames(e, key@, missing),
                _ => false,
            },
    {
        match self.get(key) {
            Some(Value::Ints(v)) => Ok(v.as_slice()),
            Some(_) => Err(fault(key, false)),
            None => Err(fault(key, true)),
        }
    }

    pub fn strings(&self, key: &str) -> (value: Result<&[String], MetaError>)
        ensures
            match (value, texts_at(*self, key@)) {
                (Ok(v), Ok(w)) => v@ == w,
                (Err(e), Err(missing)) => blames(e, key@, missing),
                _ => false,
            },
    {
        match self.get(key) {
            Some(Value::Texts(v)) => Ok(v.as_slice()),
            Some(_) => Err(fault(key, false)),
            None => Err(fault(key, true)),
        }
    }
}

} // verus!
