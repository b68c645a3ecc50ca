//! The dictionary of extracted values that templates are filled in from.

use serde_json::Value;
use vstd::prelude::*;

use crate::json::{json_object, keys_distinct, members, object_of};
use crate::text::same_text;

verus! {

/// A map from keys to extracted values.
pub struct ExtractMap {
    entries: Vec<(String, Value)>,
}

impl View for ExtractMap {
    type V = Map<Seq<char>, Value>;

    closed spec fn view(&self) -> Map<Seq<char>, Value> {
        members(self.entries@)
    }
}

proof fn lemma_members_bound(s: Seq<(String, Value)>)
    ensures
        members(s).dom().finite(),
        forall|k: Seq<char>| #[trigger]
            members(s).contains_key(k) <==> exists|i: int|
                0 <= i < s.len() && #[trigger] s[i].0@ == k,
    decreases s.len(),
{
    if s.len() > 0 {
        let t = s.drop_last();
        lemma_members_bound(t);
        assert forall|k: Seq<char>| #[trigger]
            members(s).contains_key(k) <==> exists|i: int|
                0 <= i < s.len() && #[trigger] s[i].0@ == k by {
            if members(s).contains_key(k) {
                if k == s.last().0@ {
                    assert(s[s.len() - 1].0@ == k);
                } else {
                    let i = choose|i: int| 0 <= i < t.len() && #[trigger] t[i].0@ == k;
                    assert(s[i].0@ == k);
                }
            }
            if exists|i: int| 0 <= i < s.len() && #[trigger] s[i].0@ == k {
                let i = choose|i: int| 0 <= i < s.len() && #[trigger] s[i].0@ == k;
                if i < t.len() {
                    assert(t[i].0@ == k);
                }
            }
        }
    }
}

proof fn lemma_members_remove(s: Seq<(String, Value)>, i: int, v: Value)
    requires
        0 <= i < s.len(),
    ensures
        members(s.remove(i)).insert(s[i].0@, v) == members(s).insert(s[i].0@, v),
    decreases s.len(),
{
    let r = s.remove(i);
    if i == s.len() - 1 {
        assert(r == s.drop_last());
    } else {
        lemma_members_remove(s.drop_last(), i, v);
        assert(r.drop_last() == s.drop_last().remove(i));
        assert(r.last() == s.last());
        assert(s.drop_last()[i] == s[i]);
        let k = s[i].0@;
        let a = members(s.drop_last().remove(i));
        let b = members(s.drop_last());
        let last = s.last();
        assert forall|q: Seq<char>| q != k implies (#[trigger] a.contains_key(q)
            <==> b.contains_key(q)) && a[q] == b[q] by {
            assert(a.insert(k, v).contains_key(q) == a.contains_key(q));
            assert(b.insert(k, v).contains_key(q) == b.contains_key(q));
            assert(a.insert(k, v)[q] == a[q]);
            assert(b.insert(k, v)[q] == b[q]);
        }
        assert(a.insert(last.0@, last.1).insert(k, v).dom() =~= b.insert(
            last.0@,
            last.1,
        ).insert(k, v).dom());
        assert(a.insert(last.0@, last.1).insert(k, v) =~= b.insert(last.0@, last.1).insert(k, v));
    }
}

proof fn lemma_members_at(s: Seq<(String, Value)>, i: int)
    requires
        keys_distinct(s),
        0 <= i < s.len(),
    ensures
        members(s).contains_key(s[i].0@),
        members(s)[s[i].0@] == s[i].1,
    decreases s.len(),
{
    if i < s.len() - 1 {
        let t = s.drop_last();
        assert forall|j: int, k: int| 0 <= j < k < t.len() implies (#[trigger] t[j]).0@
            != (#[trigger] t[k]).0@ by {
            assert(s[j].0@ != s[k].0@);
        }
        lemma_members_at(t, i);
        assert(s[i].0@ != s[s.len() - 1].0@);
    }
}

impl ExtractMap {
    /// Each key has one value.
    #[verifier::type_invariant]
    spec fn inv(self) -> bool {
        keys_distinct(self.entries@)
    }

    /// The map without values.
    pub fn new() -> (r: Self)
        ensures
            r@ == Map::<Seq<char>, Value>::empty(),
    {
        ExtractMap { entries: Vec::new() }
    }

    /// Tells whether nothing was extracted.
    pub fn is_empty(&self) -> (r: bool)
        ensures
            r == (self@ == Map::<Seq<char>, Value>::empty()),
    {
        proof {
            lemma_members_bound(self.entries@);
            if self.entries.len() > 0 {
                assert(self.entries@[0].0@ == self.entries@[0].0@);
                assert(self@.contains_key(self.entries@[0].0@));
            }
        }
        self.entries.len() == 0
    }

    /// The position of a key.
    fn position(&self, key: &str) -> (r: Option<usize>)
        ensures
            match r {
                Some(i) => i < self.entries.len() && self.entries@[i as int].0@ == key@,
                None => !self@.contains_key(key@),
            },
            r is Some ==> self@.contains_key(key@),
    {
        proof {
            lemma_members_bound(self.entries@);
        }
        let mut i: usize = 0;
        while i < self.entries.len()
            invariant
                0 <= i <= self.entries.len(),
                forall|j: int| 0 <= j < i ==> #[trigger] self.entries@[j].0@ != key@,
                forall|k: Seq<char>| #[trigger]
                    self@.contains_key(k) <==> exists|j: int|
                        0 <= j < self.entries.len() && #[trigger] self.entries@[j].0@ == k,
            decreases self.entries.len() - i,
        {
            if same_text(self.entries[i].0.as_str(), key) {
                assert(self.entries@[i as int].0@ == key@);
                return Some(i);
            }
            i = i + 1;
        }
        None
    }

    /// Tells whether a key has a value.
    pub fn contains_key(&self, key: &str) -> (r: bool)
        ensures
            r == self@.contains_key(key@),
    {
        match self.position(key) {
            Some(_) => true,
            None => false,
        }
    }

    /// The value of a key.
    pub fn get(&self, key: &str) -> (r: Option<Value>)
        ensures
            r == (if self@.contains_key(key@) {
                Some(self@[key@])
            } else {
                None
            }),
    {
        proof {
            use_type_invariant(self);
        }
        match self.position(key) {
            Some(i) => {
                proof {
                    lemma_members_at(self.entries@, i as int);
                }
                Some(self.entries[i].1.clone())
            },
            None => None,
        }
    }

    /// Gives a key a value; an earlier value of the key is replaced.
    pub fn insert(&mut self, key: String, value: Value)
        ensures
            final(self)@ == old(self)@.insert(key@, value),
    {
        proof {
            use_type_invariant(&*self);
        }
        let found = self.position(key.as_str());
        let mut entries: Vec<(String, Value)> = Vec::new();
        std::mem::swap(&mut entries, &mut self.entries);
        let ghost before = entries@;
        match found {
            Some(i) => {
                proof {
                    lemma_members_remove(before, i as int, value);
                    assert forall|j: int| 0 <= j < before.remove(i as int).len() implies (
                    #[trigger] before.remove(i as int)[j]).0@ != key@ by {
                        let k = if j < i { j } else { j + 1 };
                        assert(before.remove(i as int)[j] == before[k]);
                        assert(before[i as int].0@ == key@);
                    }
                }
                entries.remove(i);
            },
            None => {
                proof {
                    lemma_members_bound(before);
                }
            },
        }
        let ghost middle = entries@;
        entries.push((key, value));
        assert(entries@.drop_last() == middle);
        assert(keys_distinct(entries@));
        self.entries = entries;
    }

    /// Takes over all values of another map; they replace earlier values of their keys.
    pub fn extend(&mut self, other: &ExtractMap)
        ensures
            final(self)@ == old(self)@.union_prefer_right(other@),
    {
        let mut i: usize = 0;
        let ghost all = other.entries@;
        assert(all.take(0) == Seq::<(String, Value)>::empty());
        assert(self@ =~= old(self)@.union_prefer_right(members(all.take(0))));
        while i < other.entries.len()
            invariant
                0 <= i <= other.entries.len(),
                all == other.entries@,
                self@ == old(self)@.union_prefer_right(members(all.take(i as int))),
            decreases other.entries.len() - i,
        {
            let ghost before = self@;
            assert(all.take(i + 1).drop_last() == all.take(i as int));
            assert(all.take(i + 1).last() == all[i as int]);
            self.insert(other.entries[i].0.clone(), other.entries[i].1.clone());
            assert(self@ =~= old(self)@.union_prefer_right(members(all.take(i + 1))));
            i = i + 1;
        }
        assert(all.take(i as int) == all);
    }

    /// The same map again.
    pub fn copy(&self) -> (r: ExtractMap)
        ensures
            r@ == self@,
    {
        let mut r = ExtractMap::new();
        r.extend(self);
        assert(r@ =~= self@);
        r
    }

    /// The map as a JSON object, which templates are filled in from.
    pub fn to_object(&self) -> (r: Value)
        ensures
            r == json_object(self@),
    {
        proof {
            use_type_invariant(self);
        }
        object_of(&self.entries)
    }
}

} // verus!
