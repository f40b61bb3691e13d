use vstd::prelude::*;

use crate::error::Error;
use crate::value::{
    by_name, key_is, placed, same_key, unique_names, Mapping, Value,
};

verus! {

/// A store of named configuration entries, kept in one root mapping, with an optional
/// path of the file that backs it.
#[derive(Debug)]
pub struct Config {
    root: Mapping,
    file: Option<String>,
}

/// The textual form of an optional path.
pub open spec fn path_view(p: Option<String>) -> Option<Seq<char>> {
    match p {
        Some(s) => Some(s@),
        None => None,
    }
}

/// Whether `after` and `r` are what a store `before` becomes and answers when handed
/// `document` as the content of its file: a mapping becomes the whole root, anything
/// else leaves the store as it was.
pub open spec fn loaded(before: Config, document: Result<Value, Error>, after: Config, r: Result<(), Error>) -> bool {
    match document {
        Ok(Value::Mapping(m)) => {
            &&& r == Ok::<(), Error>(())
            &&& after.document() == m
            &&& after.path() == before.path()
        },
        Ok(_) => {
            &&& r is Err && r->Err_0 is DeserializationFailed
            &&& after == before
        },
        Err(e) => {
            &&& r == Err::<(), Error>(e)
            &&& after == before
        },
    }
}

impl Config {
    /// The root mapping.
    pub closed spec fn document(&self) -> Mapping {
        self.root
    }

    /// The path of the backing file, if one is set.
    pub closed spec fn path(&self) -> Option<Seq<char>> {
        path_view(self.file)
    }

    /// The entries of the store, by name.
    pub open spec fn entries(&self) -> Map<Seq<char>, Value> {
        self.document().named()
    }

    /// An empty store with no file.
    pub fn new() -> (c: Config)
        ensures
            c.document()@ == Seq::<(Value, Value)>::empty(),
            c.entries() == Map::<Seq<char>, Value>::empty(),
            c.path() == None::<Seq<char>>,
    {
        Config { root: Mapping::new(), file: None }
    }

    /// The same store, backed by the file at `path`. Nothing is read or written.
    pub fn with_file(self, path: &str) -> (c: Config)
        ensures
            c.document() == self.document(),
            c.path() == Some(path@),
    {
        Config { root: self.root, file: Some(path.to_owned()) }
    }

    /// Stores `value` under `name`, replacing what was there before. The entry under
    /// `name` keeps its place in the root, or is appended where there was none; every
    /// other entry stays as it was.
    pub fn add(&mut self, name: &str, value: Value) -> (r: Result<(), Error>)
        ensures
            r == Ok::<(), Error>(()),
            final(self).entries() == old(self).entries().insert(name@, value),
            placed(old(self).document()@, final(self).document()@, |k: Value| key_is(k, name@), value),
            if old(self).entries().contains_key(name@) {
                final(self).document()@.len() == old(self).document()@.len()
            } else {
                final(self).document()@.len() == old(self).document()@.len() + 1
            },
            forall|j: int|
                0 <= j < old(self).document()@.len() && !key_is(old(self).document()@[j].0, name@)
                    ==> #[trigger] final(self).document()@[j] == old(self).document()@[j],
            unique_names(final(self).document()@),
            final(self).path() == old(self).path(),
    {
        let key = Value::Text(name.to_owned());
        let ghost before = self.root@;
        proof {
            let ghost t = key;
            assert((|k: Value| same_key(k, t)) =~= (|k: Value| key_is(k, name@)));
        }
        self.root.insert(key, value);
        proof {
            let named_as = |k: Value| key_is(k, name@);
            if by_name(before).contains_key(name@) {
                let i = choose|i: int| 0 <= i < before.len() && #[trigger] key_is(before[i].0, name@);
                assert(named_as(before[i].0));
            } else {
                assert forall|i: int| 0 <= i < before.len() implies !#[trigger] named_as(before[i].0) by {
                    assert(!by_name(before).contains_key(name@));
                }
            }
        }
        Ok(())
    }

    /// The value stored under `name`.
    pub fn get(&self, name: &str) -> (r: Result<&Value, Error>)
        ensures
            match r {
                Ok(v) => self.entries().contains_key(name@) && *v == self.entries()[name@],
                Err(e) => !self.entries().contains_key(name@) && e == Error::ConfigDoesNotExist,
            },
    {
        match self.root.get(name) {
            Some(v) => Ok(v),
            None => Err(Error::ConfigDoesNotExist),
        }
    }

    /// The root mapping.
    pub fn root(&self) -> (r: &Mapping)
        ensures
            *r == self.document(),
    {
        &self.root
    }

    /// The path of the backing file, or `FileDoesNotSet` where none is set.
    pub fn file(&self) -> (r: Result<&str, Error>)
        ensures
            match r {
                Ok(p) => self.path() == Some(p@),
                Err(e) => self.path() == None::<Seq<char>> && e == Error::FileDoesNotSet,
            },
    {
        match &self.file {
            Some(p) => Ok(p.as_str()),
            None => Err(Error::FileDoesNotSet),
        }
    }
    /// Takes `document` as the new content of the store. A mapping replaces the whole
    /// root; any other document is refused with `DeserializationFailed`, and an error
    /// met while getting the document is handed back. On failure nothing changes.
    pub fn load(&mut self, document: Result<Value, Error>) -> (r: Result<(), Error>)
        ensures
            loaded(*old(self), document, *final(self), r),
    {
        match document {
            Ok(Value::Mapping(m)) => {
                self.root = m;
                Ok(())
            },
            Ok(_) => Err(Error::DeserializationFailed("the top level of the document is not a mapping".to_owned())),
            Err(e) => Err(e),
        }
    }

    /// Replaces the content of the store by the document that `read` gives for the
    /// file's path. Without a path it fails with `FileDoesNotSet` and calls nothing.
    pub fn read_from_file<F>(&mut self, read: F) -> (r: Result<(), Error>)
        where
            F: FnOnce(&str) -> Result<Value, Error>,
        requires
            forall|p: &str| old(self).path() == Some(p@) ==> read.requires((p,)),
        ensures
            match old(self).path() {
                None => r == Err::<(), Error>(Error::FileDoesNotSet) && *final(self) == *old(self),
                Some(p) => exists|s: &str, d: Result<Value, Error>|
                    s@ == p && read.ensures((s,), d) && loaded(*old(self), d, *final(self), r),
            },
    {
        let document = match self.file() {
            Ok(p) => read(p),
            Err(e) => return Err(e),
        };
        self.load(document)
    }

    /// Hands the file's path and the root mapping to `write`, and answers what it
    /// answers. Without a path it fails with `FileDoesNotSet` and calls nothing.
    pub fn write_to_file<F>(&self, write: F) -> (r: Result<(), Error>)
        where
            F: FnOnce(&str, &Mapping) -> Result<(), Error>,
        requires
            forall|p: &str, m: &Mapping| self.path() == Some(p@) && *m == self.document() ==> write.requires((p, m)),
        ensures
            match self.path() {
                None => r == Err::<(), Error>(Error::FileDoesNotSet),
                Some(p) => exists|s: &str, m: &Mapping|
                    s@ == p && *m == self.document() && write.ensures((s, m), r),
            },
    {
        match self.file() {
            Ok(p) => write(p, &self.root),
            Err(e) => Err(e),
        }
    }
}

} // verus!
