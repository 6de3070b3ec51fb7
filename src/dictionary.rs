//! A per-partition interner: unique strings mapped to dense 32-bit symbols.
use vstd::prelude::*;
use crate::text::{distinct_strings, seq_of_strings, str_eq};

verus! {

/// The largest number of strings a dictionary holds, so that every id fits
/// in a `u32`.
pub const MAX_SYMBOLS: usize = 0xffff_ffff;

/// Why a dictionary could not answer.
#[derive(Debug, Clone, Copy, PartialEq, Eq, Structural)]
pub enum DictionaryError {
    /// The string asked for has never been interned.
    ValueNotFound,
    /// The id asked for was never handed out.
    IdNotFound,
    /// Every `u32` id is in use.
    Full,
}

/// Bidirectional mapping between unique strings and ids assigned densely
/// from 0 in order of first insertion.
#[derive(Debug)]
pub struct Dictionary {
    values: Vec<String>,
}

/// Position of `v` in `s`, if any.
pub open spec fn index_of(s: Seq<Seq<char>>, v: Seq<char>) -> Option<u32> {
    if s.contains(v) {
        Some(s.index_of(v) as u32)
    } else {
        None
    }
}

/// The dictionary and id after interning `s` in `d`: `d` and the id of `s`
/// if `d` holds it, else `d` with `s` appended and the next id.
pub open spec fn interned(d: Seq<Seq<char>>, s: Seq<char>) -> (Seq<Seq<char>>, u32) {
    if d.contains(s) {
        (d, d.index_of(s) as u32)
    } else {
        (d.push(s), d.len() as u32)
    }
}

impl View for Dictionary {
    /// The interned strings, the string with id `i` at index `i`.
    type V = Seq<Seq<char>>;

    closed spec fn view(&self) -> Seq<Seq<char>> {
        seq_of_strings(self.values@)
    }
}

impl Dictionary {
    /// Every string once, and every id a `u32`.
    pub open spec fn wf(&self) -> bool {
        &&& distinct_strings(self@)
        &&& self@.len() <= MAX_SYMBOLS
    }

    /// The id of `v` in this dictionary, if it was interned.
    pub open spec fn id_of(&self, v: Seq<char>) -> Option<u32> {
        index_of(self@, v)
    }

    /// An empty dictionary.
    pub fn new() -> (r: Self)
        ensures
            r.wf(),
            r@ == Seq::<Seq<char>>::empty(),
    {
        let r = Dictionary { values: Vec::new() };
        assert(r@ =~= Seq::<Seq<char>>::empty());
        r
    }

    /// Number of interned strings.
    pub fn len(&self) -> (r: usize)
        ensures
            r == self@.len(),
    {
        self.values.len()
    }

    /// The id of `value`, or `None` if it was never interned.
    pub fn lookup_value(&self, value: &str) -> (r: Option<u32>)
        requires
            self.wf(),
        ensures
            r == self.id_of(value@),
            r matches Some(id) ==> id < self@.len() && self@[id as int] == value@,
    {
        let mut i: usize = 0;
        while i < self.values.len()
            invariant
                self.wf(),
                0 <= i <= self.values.len(),
                forall|k: int| 0 <= k < i ==> self@[k] != value@,
            decreases self.values.len() - i,
        {
            if str_eq(self.values[i].as_str(), value) {
                proof {
                    lemma_index_of_distinct(self@, i as int);
                }
                return Some(i as u32);
            }
            i = i + 1;
        }
        assert(!self@.contains(value@));
        None
    }

    /// The string with id `id`, or `None` if no such id was handed out.
    pub fn lookup_id(&self, id: u32) -> (r: Option<&str>)
        ensures
            (id as int) < self@.len() ==> (r matches Some(s) && s@ == self@[id as int]),
            (id as int) >= self@.len() ==> r is None,
    {
        if (id as usize) < self.values.len() {
            Some(self.values[id as usize].as_str())
        } else {
            None
        }
    }

    /// Returns the id of `value`, inserting it with the next free id if it
    /// was not yet present. Fails only when every id is taken.
    pub fn intern(&mut self, value: &str) -> (r: Result<u32, DictionaryError>)
        requires
            old(self).wf(),
        ensures
            final(self).wf(),
            old(self)@.contains(value@) ==> final(self)@ == old(self)@ && r == Ok::<
                u32,
                DictionaryError,
            >(old(self).id_of(value@).unwrap()),
            !old(self)@.contains(value@) && old(self)@.len() < MAX_SYMBOLS ==> final(self)@
                == old(self)@.push(value@) && r == Ok::<u32, DictionaryError>(
                old(self)@.len() as u32,
            ),
            !old(self)@.contains(value@) && old(self)@.len() == MAX_SYMBOLS ==> final(self)@
                == old(self)@ && r == Err::<u32, DictionaryError>(DictionaryError::Full),
            r matches Ok(id) ==> final(self).id_of(value@) == Some(id),
            r matches Ok(id) ==> (final(self)@, id) == interned(old(self)@, value@),
            r is Err <==> !old(self)@.contains(value@) && old(self)@.len() == MAX_SYMBOLS,
    {
        match self.lookup_value(value) {
            Some(id) => {
                proof {
                    lemma_index_of_distinct(self@, id as int);
                }
                Ok(id)
            },
            None => {
                if self.values.len() >= MAX_SYMBOLS {
                    return Err(DictionaryError::Full);
                }
                let id = self.values.len() as u32;
                let ghost before = self@;
                self.values.push(value.to_owned());
                assert(self@ =~= before.push(value@));
                proof {
                    assert forall|i: int, j: int|
                        0 <= i < self@.len() && 0 <= j < self@.len() && i != j implies self@[i]
                        != self@[j] by {
                        if i == before.len() as int {
                            assert(!before.contains(value@));
                            assert(before[j] == self@[j]);
                        } else if j == before.len() as int {
                            assert(!before.contains(value@));
                            assert(before[i] == self@[i]);
                        }
                    }
                    lemma_index_of_distinct(self@, id as int);
                }
                Ok(id)
            },
        }
    }

    /// Like `lookup_id`, but an id never handed out is an error.
    pub fn lookup_id_or_error(&self, id: u32) -> (r: Result<&str, DictionaryError>)
        ensures
            (id as int) < self@.len() ==> (r matches Ok(s) && s@ == self@[id as int]),
            (id as int) >= self@.len() ==> r == Err::<&str, DictionaryError>(DictionaryError::IdNotFound),
    {
        match self.lookup_id(id) {
            Some(s) => Ok(s),
            None => Err(DictionaryError::IdNotFound),
        }
    }

    /// Like `lookup_value`, but a missing string is an error.
    pub fn lookup_value_or_error(&self, value: &str) -> (r: Result<u32, DictionaryError>)
        requires
            self.wf(),
        ensures
            r == (match self.id_of(value@) {
                Some(id) => Ok(id),
                None => Err(DictionaryError::ValueNotFound),
            }),
    {
        match self.lookup_value(value) {
            Some(id) => Ok(id),
            None => Err(DictionaryError::ValueNotFound),
        }
    }
}

/// In a list without repeats, the position of the element at `i` is `i`.
pub proof fn lemma_index_of_distinct(s: Seq<Seq<char>>, i: int)
    requires
        distinct_strings(s),
        0 <= i < s.len(),
    ensures
        s.contains(s[i]),
        s.index_of(s[i]) == i,
{
    assert(s[i] == s[i]);
    assert(s.contains(s[i]));
    let k = s.index_of(s[i]);
    assert(s[k] == s[i]);
}

/// Interning is idempotent: interning a string a second time returns the
/// same id and leaves the dictionary as the first call left it.
pub proof fn lemma_intern_idempotent(d: Seq<Seq<char>>, s: Seq<char>)
    requires
        distinct_strings(d),
    ensures
        interned(interned(d, s).0, s) == interned(d, s),
{
    let (d1, id) = interned(d, s);
    if !d.contains(s) {
        assert(d1[d.len() as int] == s);
        assert(d1.contains(s));
        assert forall|i: int, j: int| 0 <= i < d1.len() && 0 <= j < d1.len() && i != j implies d1[i] != d1[j] by {
            if i == d.len() as int {
                assert(d[j] == d1[j]);
            } else if j == d.len() as int {
                assert(d[i] == d1[i]);
            } else {
                assert(d[i] == d1[i] && d[j] == d1[j]);
            }
        }
        lemma_index_of_distinct(d1, d.len() as int);
    }
}

} // verus!
