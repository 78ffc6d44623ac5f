//! Route parameters: an ordered mapping from a parameter's name to its value.

use vstd::prelude::*;

verus! {

/// Position of the first entry of `s` named `key`, or the length of `s` if
/// there is none.
pub open spec fn position_of(s: Seq<(Seq<char>, Seq<char>)>, key: Seq<char>) -> int
    decreases s.len(),
{
    if s.len() == 0 {
        0
    } else if s[0].0 == key {
        0
    } else {
        1 + position_of(s.drop_first(), key)
    }
}

/// No two entries of `s` carry the same name.
pub open spec fn names_distinct(s: Seq<(Seq<char>, Seq<char>)>) -> bool {
    forall|i: int, j: int| 0 <= i < j < s.len() ==> (#[trigger] s[i]).0 != (#[trigger] s[j]).0
}

/// `s` after `key` has been bound to `value`: the entry of that name is
/// replaced where it stands, a new name is added at the end.
pub open spec fn bound(s: Seq<(Seq<char>, Seq<char>)>, key: Seq<char>, value: Seq<char>) -> Seq<
    (Seq<char>, Seq<char>),
> {
    let at = position_of(s, key);
    if at < s.len() {
        s.update(at, (key, value))
    } else {
        s.push((key, value))
    }
}

/// What [`position_of`] finds: nothing before it carries the name, and the
/// entry at it does.
pub proof fn lemma_position_of(s: Seq<(Seq<char>, Seq<char>)>, key: Seq<char>)
    ensures
        0 <= position_of(s, key) <= s.len(),
        position_of(s, key) < s.len() ==> s[position_of(s, key)].0 == key,
        forall|i: int| 0 <= i < position_of(s, key) ==> (#[trigger] s[i]).0 != key,
    decreases s.len(),
{
    if s.len() > 0 && s[0].0 != key {
        let rest = s.drop_first();
        lemma_position_of(rest, key);
        assert forall|i: int| 0 <= i < position_of(s, key) implies (#[trigger] s[i]).0 != key by {
            if i > 0 {
                assert(s[i] == rest[i - 1]);
            }
        }
    }
}

/// Binding a name keeps the names distinct.
pub proof fn lemma_bound_distinct(s: Seq<(Seq<char>, Seq<char>)>, key: Seq<char>, value: Seq<char>)
    requires
        names_distinct(s),
    ensures
        names_distinct(bound(s, key, value)),
{
    lemma_position_of(s, key);
    let at = position_of(s, key);
    let t = bound(s, key, value);
    assert forall|i: int, j: int| 0 <= i < j < t.len() implies (#[trigger] t[i]).0 != (#[trigger] t[j]).0 by {
        if at < s.len() {
            if i == at {
                assert(t[j] == s[j]);
                assert(s[at].0 != s[j].0);
            } else if j == at {
                assert(t[i] == s[i]);
                assert(s[i].0 != s[at].0);
            } else {
                assert(s[i].0 != s[j].0);
            }
        } else {
            if j == s.len() {
                assert(t[i] == s[i]);
            } else {
                assert(s[i].0 != s[j].0);
            }
        }
    }
}

/// The parameters that a path gave to one matched route, in the order in
/// which they were bound.
#[derive(Debug)]
pub struct Params {
    entries: Vec<(String, String)>,
}

impl View for Params {
    type V = Seq<(Seq<char>, Seq<char>)>;

    closed spec fn view(&self) -> Seq<(Seq<char>, Seq<char>)> {
        Seq::new(self.entries@.len(), |i: int| (self.entries@[i].0@, self.entries@[i].1@))
    }
}

impl Clone for Params {
    fn clone(&self) -> (copy: Self)
        ensures
            copy@ == self@,
    {
        let mut entries: Vec<(String, String)> = Vec::new();
        let mut i: usize = 0;
        while i < self.entries.len()
            invariant
                i <= self.entries@.len(),
                entries@.len() == i,
                forall|j: int|
                    0 <= j < i ==> (#[trigger] entries@[j]).0@ == self.entries@[j].0@ && entries@[j].1@
                        == self.entries@[j].1@,
            decreases self.entries@.len() - i,
        {
            let name = self.entries[i].0.clone();
            let value = self.entries[i].1.clone();
            entries.push((name, value));
            i += 1;
        }
        let copy = Params { entries };
        assert(copy@ =~= self@);
        copy
    }
}

impl Params {
    /// No parameters.
    pub fn new() -> (params: Self)
        ensures
            params@ == Seq::<(Seq<char>, Seq<char>)>::empty(),
            names_distinct(params@),
    {
        let params = Params { entries: Vec::new() };
        assert(params@ =~= Seq::<(Seq<char>, Seq<char>)>::empty());
        params
    }

    /// Number of parameters.
    pub fn len(&self) -> (n: usize)
        ensures
            n == self@.len(),
    {
        self.entries.len()
    }

    /// Binds `key` to `value`. Names that were distinct stay distinct.
    pub fn insert(&mut self, key: String, value: String)
        ensures
            final(self)@ == bound(old(self)@, key@, value@),
            names_distinct(old(self)@) ==> names_distinct(final(self)@),
    {
        proof {
            lemma_position_of(self@, key@);
            if names_distinct(self@) {
                lemma_bound_distinct(self@, key@, value@);
            }
        }
        let at = self.find(&key);
        if at < self.entries.len() {
            self.entries.set(at, (key, value));
        } else {
            self.entries.push((key, value));
        }
        assert(self@ =~= bound(old(self)@, key@, value@));
    }

    /// The value bound to `key`, if any.
    pub fn get(&self, key: &str) -> (value: Option<String>)
        ensures
            value.is_some() <==> position_of(self@, key@) < self@.len(),
            value.is_none() <==> position_of(self@, key@) == self@.len(),
            value matches Some(v) ==> v@ == self@[position_of(self@, key@)].1,
    {
        proof {
            lemma_position_of(self@, key@);
        }
        let name = key.to_owned();
        let at = self.find(&name);
        if at < self.entries.len() {
            let value = self.entries[at].1.clone();
            assert(value@ == self@[at as int].1);
            Some(value)
        } else {
            None
        }
    }

    /// The name and the value of the entry at `index`.
    pub fn entry(&self, index: usize) -> (pair: (String, String))
        requires
            index < self@.len(),
        ensures
            pair.0@ == self@[index as int].0,
            pair.1@ == self@[index as int].1,
    {
        (self.entries[index].0.clone(), self.entries[index].1.clone())
    }

    /// Position of the first entry named `key`, or the number of entries.
    fn find(&self, key: &String) -> (at: usize)
        ensures
            at == position_of(self@, key@),
    {
        let mut i: usize = 0;
        assert(self@.skip(0) =~= self@);
        while i < self.entries.len()
            invariant
                i <= self.entries@.len(),
                position_of(self@, key@) == i + position_of(self@.skip(i as int), key@),
            decreases self.entries@.len() - i,
        {
            proof {
                let rest = self@.skip(i as int);
                assert(rest[0] == self@[i as int]);
                assert(rest.drop_first() =~= self@.skip(i + 1));
            }
            if self.entries[i].0 == *key {
                return i;
            }
            i += 1;
        }
        assert(self@.skip(i as int).len() == 0);
        i
    }
}

} // verus!
