//! The property table: a mapping from property name to current string
//! value, with last-write-wins insertion.  The same type also serves as the
//! environment snapshot that macro resolution falls back to.

use vstd::prelude::*;

use crate::text::str_eq;

verus! {

/// First-match lookup in a sequence of key/value pairs.
pub open spec fn spec_lookup(s: Seq<(String, String)>, k: Seq<char>) -> Option<Seq<char>>
    decreases s.len(),
{
    if s.len() == 0 {
        None
    } else if s[0].0@ == k {
        Some(s[0].1@)
    } else {
        spec_lookup(s.drop_first(), k)
    }
}

/// A mapping from string keys to string values.  Viewed as a
/// `Map<Seq<char>, Seq<char>>`; insertion overwrites an existing entry.
pub struct StringMap {
    entries: Vec<(String, String)>,
}

impl View for StringMap {
    type V = Map<Seq<char>, Seq<char>>;

    closed spec fn view(&self) -> Map<Seq<char>, Seq<char>> {
        Map::new(
            |k: Seq<char>| spec_lookup(self.entries@, k) is Some,
            |k: Seq<char>| spec_lookup(self.entries@, k).unwrap(),
        )
    }
}

/// Lookup is unchanged by a prefix of entries whose keys all differ from `k`.
pub proof fn lemma_lookup_skip(s: Seq<(String, String)>, k: Seq<char>, i: int)
    requires
        0 <= i <= s.len(),
        forall|j: int| 0 <= j < i ==> s[j].0@ != k,
    ensures
        spec_lookup(s, k) == spec_lookup(s.skip(i), k),
    decreases i,
{
    if i > 0 {
        assert(s.drop_first().skip(i - 1) =~= s.skip(i));
        lemma_lookup_skip(s.drop_first(), k, i - 1);
    } else {
        assert(s.skip(0) =~= s);
    }
}

/// Lookup finds the first entry whose key is `k`.
pub proof fn lemma_lookup_found(s: Seq<(String, String)>, k: Seq<char>, i: int)
    requires
        0 <= i < s.len(),
        s[i].0@ == k,
        forall|j: int| 0 <= j < i ==> s[j].0@ != k,
    ensures
        spec_lookup(s, k) == Some(s[i].1@),
    decreases i,
{
    if i > 0 {
        lemma_lookup_found(s.drop_first(), k, i - 1);
    }
}

/// Updating the value of the first entry with key `k` updates the lookup of
/// `k` and leaves every other key's lookup unchanged.
proof fn lemma_lookup_update(s: Seq<(String, String)>, i: int, p: (String, String), k: Seq<char>)
    requires
        0 <= i < s.len(),
        s[i].0@ == p.0@,
        forall|j: int| 0 <= j < i ==> s[j].0@ != p.0@,
    ensures
        spec_lookup(s.update(i, p), k) == if k == p.0@ {
            Some(p.1@)
        } else {
            spec_lookup(s, k)
        },
    decreases i,
{
    let t = s.update(i, p);
    if i == 0 {
        assert(t.drop_first() =~= s.drop_first());
    } else {
        assert(t.drop_first() =~= s.drop_first().update(i - 1, p));
        lemma_lookup_update(s.drop_first(), i - 1, p, k);
    }
}

/// Appending an entry only affects the lookup of keys not found before it.
proof fn lemma_lookup_push(s: Seq<(String, String)>, p: (String, String), k: Seq<char>)
    ensures
        spec_lookup(s.push(p), k) == if spec_lookup(s, k) is Some {
            spec_lookup(s, k)
        } else if k == p.0@ {
            Some(p.1@)
        } else {
            None::<Seq<char>>
        },
    decreases s.len(),
{
    if s.len() == 0 {
        assert(s.push(p)[0] == p);
        assert(s.push(p).drop_first() =~= Seq::<(String, String)>::empty());
        assert(spec_lookup(Seq::<(String, String)>::empty(), k) is None);
        assert(s =~= Seq::<(String, String)>::empty());
    } else {
        assert(s.push(p)[0] == s[0]);
        assert(s.push(p).drop_first() =~= s.drop_first().push(p));
        lemma_lookup_push(s.drop_first(), p, k);
    }
}

impl StringMap {
    /// Each key occurs at most once among the entries.
    #[verifier::type_invariant]
    spec fn wf(&self) -> bool {
        forall|i: int, j: int|
            0 <= i < j < self.entries@.len() ==> self.entries@[i].0@ != self.entries@[j].0@
    }

    /// An empty table.
    pub fn new() -> (r: StringMap)
        ensures
            r@ == Map::<Seq<char>, Seq<char>>::empty(),
    {
        let r = StringMap { entries: Vec::new() };
        proof {
            assert(r@ =~= Map::<Seq<char>, Seq<char>>::empty());
        }
        r
    }

    /// Looks a key up; `None` when the key has never been inserted.
    pub fn get(&self, key: &str) -> (r: Option<&String>)
        ensures
            match r {
                Some(v) => self@.contains_key(key@) && v@ == self@[key@],
                None => !self@.contains_key(key@),
            },
    {
        let n = self.entries.len();
        for i in 0..n
            invariant
                n == self.entries.len(),
                forall|j: int| 0 <= j < i ==> self.entries@[j].0@ != key@,
        {
            if str_eq(self.entries[i].0.as_str(), key) {
                proof {
                    lemma_lookup_found(self.entries@, key@, i as int);
                }
                return Some(&self.entries[i].1);
            }
        }
        proof {
            lemma_lookup_skip(self.entries@, key@, n as int);
        }
        None
    }

    /// Inserts a value, overwriting any existing entry for the key; returns
    /// the overwritten value, `None` when the key was absent.
    pub fn insert(&mut self, key: String, value: String) -> (prev: Option<String>)
        ensures
            final(self)@ == old(self)@.insert(key@, value@),
            match prev {
                Some(p) => old(self)@.contains_key(key@) && p@ == old(self)@[key@],
                None => !old(self)@.contains_key(key@),
            },
    {
        proof {
            use_type_invariant(&*self);
        }
        let ghost s0 = self.entries@;
        let n = self.entries.len();
        let mut out: Vec<(String, String)> = Vec::new();
        let mut prev: Option<String> = None;
        let mut replaced = false;
        let ghost mut midx: int = 0;
        for i in 0..n
            invariant
                self.entries@ == s0,
                n == s0.len(),
                out@.len() == i,
                !replaced ==> {
                    &&& out@ =~= s0.subrange(0, i as int)
                    &&& forall|j: int| 0 <= j < i ==> s0[j].0@ != key@
                    &&& prev is None
                },
                replaced ==> {
                    &&& 0 <= midx < i
                    &&& s0[midx].0@ == key@
                    &&& forall|j: int| 0 <= j < midx ==> s0[j].0@ != key@
                    &&& out@ =~= s0.subrange(0, i as int).update(midx, (s0[midx].0, value))
                    &&& prev == Some(s0[midx].1)
                },
        {
            let k = self.entries[i].0.clone();
            let v = self.entries[i].1.clone();
            if !replaced && str_eq(k.as_str(), key.as_str()) {
                prev = Some(v);
                out.push((k, value.clone()));
                replaced = true;
                proof {
                    midx = i as int;
                    assert(out@ =~= s0.subrange(0, i + 1 as int).update(
                        midx,
                        (s0[midx].0, value),
                    ));
                }
            } else {
                out.push((k, v));
                proof {
                    if replaced {
                        assert(out@ =~= s0.subrange(0, i + 1 as int).update(
                            midx,
                            (s0[midx].0, value),
                        ));
                    } else {
                        assert(out@ =~= s0.subrange(0, i + 1 as int));
                    }
                }
            }
        }
        proof {
            assert(s0.subrange(0, n as int) =~= s0);
        }
        if replaced {
            self.entries = out;
            proof {
                lemma_lookup_found(s0, key@, midx);
                assert forall|k: Seq<char>|
                    spec_lookup(self.entries@, k) == (if k == key@ {
                        Some(value@)
                    } else {
                        spec_lookup(s0, k)
                    }) by {
                    lemma_lookup_update(s0, midx, (s0[midx].0, value), k);
                }
                assert(self@ =~= old(self)@.insert(key@, value@));
            }
            prev
        } else {
            proof {
                lemma_lookup_skip(s0, key@, n as int);
            }
            let ghost kv = key@;
            let ghost vv = value@;
            out.push((key, value));
            self.entries = out;
            proof {
                assert(self.entries@ =~= s0.push(self.entries@.last()));
                assert forall|k: Seq<char>|
                    spec_lookup(self.entries@, k) == (if spec_lookup(s0, k) is Some {
                        spec_lookup(s0, k)
                    } else if k == kv {
                        Some(vv)
                    } else {
                        None::<Seq<char>>
                    }) by {
                    lemma_lookup_push(s0, self.entries@.last(), k);
                }
                assert forall|j: int| 0 <= j < s0.len() implies s0[j].0@ != kv by {
                    if s0[j].0@ == kv {
                        lemma_lookup_found(s0, kv, j);
                    }
                }
                assert(self@ =~= old(self)@.insert(kv, vv));
            }
            None
        }
    }

    /// The key/value pairs now held, for rendering; each key appears once,
    /// with its current value.
    pub fn pairs(&self) -> (r: &Vec<(String, String)>)
        ensures
            forall|i: int|
                0 <= i < r@.len() ==> self@.contains_key(#[trigger] r@[i].0@) && self@[r@[i].0@]
                    == r@[i].1@,
            forall|i: int, j: int| 0 <= i < j < r@.len() ==> r@[i].0@ != r@[j].0@,
    {
        proof {
            use_type_invariant(self);
            assert forall|i: int| 0 <= i < self.entries@.len() implies self@.contains_key(
                #[trigger] self.entries@[i].0@,
            ) && self@[self.entries@[i].0@] == self.entries@[i].1@ by {
                lemma_lookup_found(self.entries@, self.entries@[i].0@, i);
            }
        }
        &self.entries
    }
}

/// First-match lookup in a sequence of key/answer pairs.
pub open spec fn spec_lookup_bool(s: Seq<(String, bool)>, k: Seq<char>) -> Option<bool>
    decreases s.len(),
{
    if s.len() == 0 {
        None
    } else if s[0].0@ == k {
        Some(s[0].1)
    } else {
        spec_lookup_bool(s.drop_first(), k)
    }
}

/// A mapping from string keys to booleans; it carries the caller's answers
/// to the `exists(...)` questions a condition asks.  Viewed as a
/// `Map<Seq<char>, bool>`.
pub struct BoolMap {
    entries: Vec<(String, bool)>,
}

impl View for BoolMap {
    type V = Map<Seq<char>, bool>;

    closed spec fn view(&self) -> Map<Seq<char>, bool> {
        Map::new(
            |k: Seq<char>| spec_lookup_bool(self.entries@, k) is Some,
            |k: Seq<char>| spec_lookup_bool(self.entries@, k).unwrap(),
        )
    }
}

impl BoolMap {
    /// An empty map.
    pub fn new() -> (r: BoolMap)
        ensures
            r@ == Map::<Seq<char>, bool>::empty(),
    {
        let r = BoolMap { entries: Vec::new() };
        proof {
            assert(r@ =~= Map::<Seq<char>, bool>::empty());
        }
        r
    }

    /// Looks a key up; `None` when no answer was supplied for it.
    pub fn get(&self, key: &str) -> (r: Option<bool>)
        ensures
            match r {
                Some(v) => self@.contains_key(key@) && v == self@[key@],
                None => !self@.contains_key(key@),
            },
    {
        let n = self.entries.len();
        for i in 0..n
            invariant
                n == self.entries.len(),
                forall|j: int| 0 <= j < i ==> self.entries@[j].0@ != key@,
        {
            if str_eq(self.entries[i].0.as_str(), key) {
                proof {
                    lemma_lookup_bool_found(self.entries@, key@, i as int);
                }
                return Some(self.entries[i].1);
            }
        }
        proof {
            lemma_lookup_bool_skip(self.entries@, key@, n as int);
        }
        None
    }

    /// Records an answer, overwriting any earlier one for the same key.
    pub fn insert(&mut self, key: String, value: bool)
        ensures
            final(self)@ == old(self)@.insert(key@, value),
    {
        let ghost s0 = self.entries@;
        self.entries.insert(0, (key, value));
        proof {
            assert(self.entries@.drop_first() =~= s0);
            assert(self@ =~= old(self)@.insert(self.entries@[0].0@, value));
        }
    }
}

proof fn lemma_lookup_bool_skip(s: Seq<(String, bool)>, k: Seq<char>, i: int)
    requires
        0 <= i <= s.len(),
        forall|j: int| 0 <= j < i ==> s[j].0@ != k,
    ensures
        spec_lookup_bool(s, k) == spec_lookup_bool(s.skip(i), k),
    decreases i,
{
    if i > 0 {
        assert(s.drop_first().skip(i - 1) =~= s.skip(i));
        lemma_lookup_bool_skip(s.drop_first(), k, i - 1);
    } else {
        assert(s.skip(0) =~= s);
    }
}

proof fn lemma_lookup_bool_found(s: Seq<(String, bool)>, k: Seq<char>, i: int)
    requires
        0 <= i < s.len(),
        s[i].0@ == k,
        forall|j: int| 0 <= j < i ==> s[j].0@ != k,
    ensures
        spec_lookup_bool(s, k) == Some(s[i].1),
    decreases i,
{
    if i > 0 {
        lemma_lookup_bool_found(s.drop_first(), k, i - 1);
    }
}

} // verus!
