//! Lookup of word ids by their text.
use vstd::prelude::*;

use crate::dict::Dict;
use crate::error::Error;

verus! {

/// Resolves words to their ids in a dictionary. When a word occurs more than
/// once, the last of its ids is the one found.
pub struct Index<'a> {
    dict: &'a Dict,
}

impl<'a> Index<'a> {
    /// The dictionary that the index resolves into.
    pub closed spec fn spec_dict(&self) -> &'a Dict {
        self.dict
    }

    /// Indexes the words of `dict`.
    pub fn new(dict: &'a Dict) -> (r: Index<'a>)
        ensures
            r.spec_dict() == dict,
    {
        Index { dict }
    }

    /// The greatest id whose word is `key`, or `None` when no word is `key`.
    pub fn get(&self, key: &str) -> (r: Option<u32>)
        requires
            self.spec_dict()@.len() <= u32::MAX,
        ensures
            match r {
                Some(i) => {
                    &&& i < self.spec_dict()@.len()
                    &&& self.spec_dict()@[i as int] == key@
                    &&& forall|j: int|
                        i < j < self.spec_dict()@.len() ==> #[trigger] self.spec_dict()@[j] != key@
                },
                None => forall|j: int|
                    0 <= j < self.spec_dict()@.len() ==> #[trigger] self.spec_dict()@[j] != key@,
            },
    {
        let words = self.dict.words();
        let wanted = key.to_owned();
        let mut i = words.len();
        while i > 0
            invariant
                i <= words@.len(),
                words@.len() == self.spec_dict()@.len(),
                words@.len() <= u32::MAX,
                forall|j: int| 0 <= j < words@.len() ==> #[trigger] words@[j]@ == self.spec_dict()@[j],
                wanted@ == key@,
                forall|j: int| i <= j < words@.len() ==> #[trigger] self.spec_dict()@[j] != key@,
            decreases i,
        {
            i = i - 1;
            if words[i] == wanted {
                return Some(i as u32);
            }
        }
        None
    }

    /// The greatest id whose word is `key`; a word that is not in the
    /// dictionary fails with `Lookup`, which names it.
    pub fn lookup(&self, key: &str) -> (r: Result<u32, Error>)
        requires
            self.spec_dict()@.len() <= u32::MAX,
        ensures
            match r {
                Ok(i) => {
                    &&& i < self.spec_dict()@.len()
                    &&& self.spec_dict()@[i as int] == key@
                    &&& forall|j: int|
                        i < j < self.spec_dict()@.len() ==> #[trigger] self.spec_dict()@[j] != key@
                },
                Err(Error::Lookup(word)) => {
                    &&& word@ == key@
                    &&& forall|j: int|
                        0 <= j < self.spec_dict()@.len() ==> #[trigger] self.spec_dict()@[j] != key@
                },
                Err(_) => false,
            },
    {
        match self.get(key) {
            Some(i) => Ok(i),
            None => Err(Error::Lookup(key.to_owned())),
        }
    }
}

} // verus!
