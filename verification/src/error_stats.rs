//! Error statistics: how often which error was met.

use std::hash::{Hash, Hasher};
use vstd::prelude::*;

use crate::text::{debug_text, decimal, decimal_text, joined, quoted};

verus! {

/// The counts of a list of keys and counts: a later entry stands for an earlier one of its key.
pub open spec fn counts<K>(s: Seq<(K, u32)>) -> Map<K, u32>
    decreases s.len(),
{
    if s.len() == 0 {
        Map::empty()
    } else {
        counts(s.drop_last()).insert(s.last().0, s.last().1)
    }
}

/// No key stands in a list twice.
pub open spec fn keys_apart<K>(s: Seq<(K, u32)>) -> bool {
    forall|i: int, j: int| 0 <= i < j < s.len() ==> (#[trigger] s[i]).0 != (#[trigger] s[j]).0
}

/// How often a key was counted.
pub open spec fn count_of<K>(m: Map<K, u32>, key: K) -> u32 {
    if m.contains_key(key) {
        m[key]
    } else {
        0
    }
}

/// The counts after one more of a key.
pub open spec fn counted_once<K>(m: Map<K, u32>, key: K) -> Map<K, u32> {
    m.insert(key, count_of(m, key).wrapping_add(1))
}

proof fn lemma_counts_absent<K>(s: Seq<(K, u32)>, key: K)
    requires
        forall|j: int| 0 <= j < s.len() ==> #[trigger] s[j].0 != key,
    ensures
        !counts(s).contains_key(key),
    decreases s.len(),
{
    if s.len() > 0 {
        assert forall|j: int| 0 <= j < s.drop_last().len() implies #[trigger] s.drop_last()[j].0
            != key by {
            assert(s[j].0 != key);
        }
        lemma_counts_absent(s.drop_last(), key);
        assert(s[s.len() - 1].0 != key);
    }
}

proof fn lemma_counts_update<K>(s: Seq<(K, u32)>, i: int, n: u32)
    requires
        0 <= i < s.len(),
        forall|j: int| i < j < s.len() ==> #[trigger] s[j].0 != s[i].0,
    ensures
        counts(s).contains_key(s[i].0),
        counts(s)[s[i].0] == s[i].1,
        counts(s.update(i, (s[i].0, n))) == counts(s).insert(s[i].0, n),
    decreases s.len(),
{
    let u = s.update(i, (s[i].0, n));
    if i == s.len() - 1 {
        assert(u.drop_last() == s.drop_last());
        assert(counts(u) =~= counts(s).insert(s[i].0, n));
    } else {
        let t = s.drop_last();
        assert forall|j: int| i < j < t.len() implies #[trigger] t[j].0 != t[i].0 by {
            assert(s[j].0 != s[i].0);
        }
        lemma_counts_update(t, i, n);
        assert(u.drop_last() == t.update(i, (t[i].0, n)));
        assert(u.last() == s.last());
        assert(s[s.len() - 1].0 != s[i].0);
        assert(counts(u) =~= counts(s).insert(s[i].0, n));
    }
}

/// What an HTTP error is counted under.
#[derive(Debug, Eq, Clone)]
pub struct ErrKey {
    pub name: String,
    pub code: u16,
    pub msg: String,
    pub url: String,
    pub source: String,
}

/// What an HTTP error key says.
pub struct ErrKeyView {
    pub name: Seq<char>,
    pub code: u16,
    pub msg: Seq<char>,
    pub url: Seq<char>,
    pub source: Seq<char>,
}

impl View for ErrKey {
    type V = ErrKeyView;

    open spec fn view(&self) -> ErrKeyView {
        ErrKeyView {
            name: self.name@,
            code: self.code,
            msg: self.msg@,
            url: self.url@,
            source: self.source@,
        }
    }
}

/// Keys compare by their status code.
impl PartialEq for ErrKey {
    fn eq(&self, other: &Self) -> (r: bool) {
        self.code == other.code
    }
}

impl vstd::std_specs::cmp::PartialEqSpecImpl for ErrKey {
    open spec fn obeys_eq_spec() -> bool {
        true
    }

    open spec fn eq_spec(&self, other: &Self) -> bool {
        self.code == other.code
    }
}

/// `str::hash`: feeds a text to a hasher. Nothing is promised of what the hasher makes of it.
#[verifier::external_body]
fn hash_text<H: Hasher>(text: &str, state: &mut H) {
    text.hash(state)
}

/// A key hashes as the debug forms of its fields, in one text.
impl Hash for ErrKey {
    fn hash<H: Hasher>(&self, state: &mut H) {
        hash_text(self.hashed_text().as_str(), state)
    }
}

impl ErrKey {
    /// The text that the key hashes as.
    pub fn hashed_text(&self) -> (r: String)
        ensures
            r@ == quoted(self.name@) + quoted(self.url@) + decimal(self.code as nat) + quoted(
                self.msg@,
            ) + quoted(self.source@),
    {
        let mut r = debug_text(self.name.as_str());
        r = joined(r.as_str(), debug_text(self.url.as_str()).as_str());
        r = joined(r.as_str(), decimal_text(self.code as u64).as_str());
        r = joined(r.as_str(), debug_text(self.msg.as_str()).as_str());
        joined(r.as_str(), debug_text(self.source.as_str()).as_str())
    }

    /// Tells whether two keys say the same in every field.
    fn same(&self, other: &ErrKey) -> (r: bool)
        ensures
            r == (self@ == other@),
    {
        self.code == other.code && self.name == other.name && self.url == other.url && self.msg
            == other.msg && self.source == other.source
    }

    /// The same key again.
    pub fn copy(&self) -> (r: ErrKey)
        ensures
            r@ == self@,
    {
        ErrKey {
            name: self.name.clone(),
            code: self.code,
            msg: self.msg.clone(),
            url: self.url.clone(),
            source: self.source.clone(),
        }
    }
}

/// How often which HTTP error was met.
pub struct HttpErrorStats {
    errors: Vec<(ErrKey, u32)>,
}

/// HTTP error entries, with what their keys say.
pub open spec fn http_entries(s: Seq<(ErrKey, u32)>) -> Seq<(ErrKeyView, u32)> {
    Seq::new(s.len(), |i: int| (s[i].0@, s[i].1))
}

impl View for HttpErrorStats {
    type V = Map<ErrKeyView, u32>;

    closed spec fn view(&self) -> Map<ErrKeyView, u32> {
        counts(http_entries(self.errors@))
    }
}

impl HttpErrorStats {
    /// Each key is counted in one place.
    #[verifier::type_invariant]
    spec fn inv(self) -> bool {
        keys_apart(http_entries(self.errors@))
    }

    /// No error yet.
    pub fn new() -> (r: Self)
        ensures
            r@ == Map::<ErrKeyView, u32>::empty(),
    {
        let r = HttpErrorStats { errors: Vec::new() };
        assert(http_entries(r.errors@).len() == 0);
        r
    }

    /// Counts an error once more.
    pub fn increment(&mut self, name: String, url: String, code: u16, msg: String, source: String)
        ensures
            final(self)@ == counted_once(
                old(self)@,
                (ErrKeyView { name: name@, code, msg: msg@, url: url@, source: source@ }),
            ),
    {
        let key = ErrKey { name, code, msg, url, source };
        proof {
            use_type_invariant(&*self);
        }
        let mut errors: Vec<(ErrKey, u32)> = Vec::new();
        std::mem::swap(&mut errors, &mut self.errors);
        let ghost before = http_entries(errors@);
        let mut i: usize = errors.len();
        while i > 0
            invariant
                0 <= i <= errors.len(),
                before == http_entries(errors@),
                before == http_entries(old(self).errors@),
                keys_apart(before),
                key@ == (ErrKeyView { name: name@, code, msg: msg@, url: url@, source: source@ }),
                forall|j: int| i <= j < before.len() ==> #[trigger] before[j].0 != key@,
            decreases i,
        {
            i = i - 1;
            if errors[i].0.same(&key) {
                let n: u32 = errors[i].1.wrapping_add(1);
                proof {
                    lemma_counts_update(before, i as int, n);
                }
                errors.set(i, (key, n));
                assert(http_entries(errors@) == before.update(i as int, (key@, n)));
                self.errors = errors;
                return;
            }
        }
        proof {
            lemma_counts_absent(before, key@);
        }
        errors.push((key, 1));
        proof {
            let now = http_entries(errors@);
            assert(now == before.push((key@, 1u32)));
            assert(now.drop_last() == before);
        }
        self.errors = errors;
    }

    /// The errors and their counts, one entry after the other.
    pub fn to_vec(&self) -> (r: Vec<(ErrKey, u32)>)
        ensures
            counts(http_entries(r@)) == self@,
            keys_apart(http_entries(r@)),
    {
        proof {
            use_type_invariant(self);
        }
        let mut r: Vec<(ErrKey, u32)> = Vec::new();
        let mut i: usize = 0;
        while i < self.errors.len()
            invariant
                0 <= i <= self.errors.len(),
                http_entries(r@) == http_entries(self.errors@).take(i as int),
            decreases self.errors.len() - i,
        {
            let ghost done = http_entries(r@);
            let key = self.errors[i].0.copy();
            let ghost view = key@;
            r.push((key, self.errors[i].1));
            assert(http_entries(r@) == done.push((view, self.errors@[i as int].1)));
            i = i + 1;
        }
        assert(http_entries(r@) == http_entries(self.errors@));
        r
    }
}

/// What a failed assertion is counted under.
#[derive(Debug, Eq, Clone)]
pub struct AssertErrKey {
    pub name: String,
    pub msg: String,
    pub url: String,
}

/// What an assertion error key says.
pub struct AssertErrKeyView {
    pub name: Seq<char>,
    pub msg: Seq<char>,
    pub url: Seq<char>,
}

impl View for AssertErrKey {
    type V = AssertErrKeyView;

    open spec fn view(&self) -> AssertErrKeyView {
        AssertErrKeyView { name: self.name@, msg: self.msg@, url: self.url@ }
    }
}

/// Keys are equal when they say the same in every field.
impl PartialEq for AssertErrKey {
    fn eq(&self, other: &Self) -> (r: bool) {
        self.name == other.name && self.url == other.url && self.msg == other.msg
    }
}

impl vstd::std_specs::cmp::PartialEqSpecImpl for AssertErrKey {
    open spec fn obeys_eq_spec() -> bool {
        true
    }

    open spec fn eq_spec(&self, other: &Self) -> bool {
        self@ == other@
    }
}

/// A key hashes as the debug forms of its fields, in one text.
impl Hash for AssertErrKey {
    fn hash<H: Hasher>(&self, state: &mut H) {
        hash_text(self.hashed_text().as_str(), state)
    }
}

impl AssertErrKey {
    /// The text that the key hashes as.
    pub fn hashed_text(&self) -> (r: String)
        ensures
            r@ == quoted(self.name@) + quoted(self.url@) + quoted(self.msg@),
    {
        let mut r = debug_text(self.name.as_str());
        r = joined(r.as_str(), debug_text(self.url.as_str()).as_str());
        joined(r.as_str(), debug_text(self.msg.as_str()).as_str())
    }

    /// The same key again.
    pub fn copy(&self) -> (r: AssertErrKey)
        ensures
            r@ == self@,
    {
        AssertErrKey { name: self.name.clone(), msg: self.msg.clone(), url: self.url.clone() }
    }
}

/// How often which assertion failed.
#[derive(Debug)]
pub struct AssertErrorStats {
    errors: Vec<(AssertErrKey, u32)>,
}

/// Assertion error entries, with what their keys say.
pub open spec fn assert_entries(s: Seq<(AssertErrKey, u32)>) -> Seq<(AssertErrKeyView, u32)> {
    Seq::new(s.len(), |i: int| (s[i].0@, s[i].1))
}

impl View for AssertErrorStats {
    type V = Map<AssertErrKeyView, u32>;

    closed spec fn view(&self) -> Map<AssertErrKeyView, u32> {
        counts(assert_entries(self.errors@))
    }
}

impl AssertErrorStats {
    /// Each key is counted in one place.
    #[verifier::type_invariant]
    spec fn inv(self) -> bool {
        keys_apart(assert_entries(self.errors@))
    }

    /// No error yet.
    pub fn new() -> (r: Self)
        ensures
            r@ == Map::<AssertErrKeyView, u32>::empty(),
    {
        let r = AssertErrorStats { errors: Vec::new() };
        assert(assert_entries(r.errors@).len() == 0);
        r
    }

    /// Counts an error once more.
    pub fn increment(&mut self, name: String, msg: String, url: String)
        ensures
            final(self)@ == counted_once(
                old(self)@,
                (AssertErrKeyView { name: name@, msg: msg@, url: url@ }),
            ),
    {
        let key = AssertErrKey { name, msg, url };
        proof {
            use_type_invariant(&*self);
        }
        let mut errors: Vec<(AssertErrKey, u32)> = Vec::new();
        std::mem::swap(&mut errors, &mut self.errors);
        let ghost before = assert_entries(errors@);
        let mut i: usize = errors.len();
        while i > 0
            invariant
                0 <= i <= errors.len(),
                before == assert_entries(errors@),
                before == assert_entries(old(self).errors@),
                keys_apart(before),
                key@ == (AssertErrKeyView { name: name@, msg: msg@, url: url@ }),
                forall|j: int| i <= j < before.len() ==> #[trigger] before[j].0 != key@,
            decreases i,
        {
            i = i - 1;
            if errors[i].0 == key {
                let n: u32 = errors[i].1.wrapping_add(1);
                proof {
                    lemma_counts_update(before, i as int, n);
                }
                errors.set(i, (key, n));
                assert(assert_entries(errors@) == before.update(i as int, (key@, n)));
                self.errors = errors;
                return;
            }
        }
        proof {
            lemma_counts_absent(before, key@);
        }
        errors.push((key, 1));
        proof {
            let now = assert_entries(errors@);
            assert(now == before.push((key@, 1u32)));
            assert(now.drop_last() == before);
        }
        self.errors = errors;
    }

    /// The errors and their counts, one entry after the other.
    pub fn to_vec(&self) -> (r: Vec<(AssertErrKey, u32)>)
        ensures
            counts(assert_entries(r@)) == self@,
            keys_apart(assert_entries(r@)),
    {
        proof {
            use_type_invariant(self);
        }
        let mut r: Vec<(AssertErrKey, u32)> = Vec::new();
        let mut i: usize = 0;
        while i < self.errors.len()
            invariant
                0 <= i <= self.errors.len(),
                assert_entries(r@) == assert_entries(self.errors@).take(i as int),
            decreases self.errors.len() - i,
        {
            let ghost done = assert_entries(r@);
            let key = self.errors[i].0.copy();
            let ghost view = key@;
            r.push((key, self.errors[i].1));
            assert(assert_entries(r@) == done.push((view, self.errors@[i as int].1)));
            i = i + 1;
        }
        assert(assert_entries(r@) == assert_entries(self.errors@));
        r
    }
}

/// The sum of the counts of those keys that `chosen` holds of.
pub open spec fn sum_where<K>(m: Map<K, u32>, chosen: spec_fn(K) -> bool) -> nat
    decreases m.dom().len(),
{
    if !m.dom().finite() || m.dom().len() == 0 {
        0
    } else {
        let key = m.dom().choose();
        sum_where(m.remove(key), chosen) + (if chosen(key) {
            m[key] as nat
        } else {
            0
        })
    }
}

/// Holds of every key.
pub open spec fn any_key<K>() -> spec_fn(K) -> bool {
    |key: K| true
}

/// Holds of the keys with this status code.
pub open spec fn with_code(code: u16) -> spec_fn(ErrKeyView) -> bool {
    |key: ErrKeyView| key.code == code
}

/// The sum of all counts.
pub open spec fn sum_of<K>(m: Map<K, u32>) -> nat {
    sum_where(m, any_key())
}

/// The counts after each of these keys was counted once more, in turn.
pub open spec fn counted_more<K>(m: Map<K, u32>, keys: Seq<K>) -> Map<K, u32>
    decreases keys.len(),
{
    if keys.len() == 0 {
        m
    } else {
        counted_once(counted_more(m, keys.drop_last()), keys.last())
    }
}

/// The counts after each of these keys was counted, in turn, from none on.
pub open spec fn counted_all<K>(keys: Seq<K>) -> Map<K, u32> {
    counted_more(Map::empty(), keys)
}

/// How many of these keys `chosen` holds of.
pub open spec fn how_many<K>(keys: Seq<K>, chosen: spec_fn(K) -> bool) -> nat
    decreases keys.len(),
{
    if keys.len() == 0 {
        0
    } else {
        how_many(keys.drop_last(), chosen) + (if chosen(keys.last()) {
            1nat
        } else {
            0
        })
    }
}

proof fn lemma_sum_remove<K>(m: Map<K, u32>, key: K, chosen: spec_fn(K) -> bool)
    requires
        m.dom().finite(),
        m.contains_key(key),
    ensures
        sum_where(m, chosen) == sum_where(m.remove(key), chosen) + (if chosen(key) {
            m[key] as nat
        } else {
            0
        }),
    decreases m.dom().len(),
{
    let first = m.dom().choose();
    assert(m.dom().contains(first));
    if first != key {
        lemma_sum_remove(m.remove(first), key, chosen);
        lemma_sum_remove(m.remove(key), first, chosen);
        assert(m.remove(first).remove(key) == m.remove(key).remove(first));
    }
}

/// One more of a key adds one to every sum that the key is part of, and to no other.
pub proof fn law_counting_adds_one<K>(m: Map<K, u32>, key: K, chosen: spec_fn(K) -> bool)
    requires
        m.dom().finite(),
        count_of(m, key) < u32::MAX,
    ensures
        counted_once(m, key).dom().finite(),
        sum_where(counted_once(m, key), chosen) == sum_where(m, chosen) + (if chosen(key) {
            1nat
        } else {
            0
        }),
{
    let after = counted_once(m, key);
    lemma_sum_remove(after, key, chosen);
    if m.contains_key(key) {
        lemma_sum_remove(m, key, chosen);
        assert(after.remove(key) == m.remove(key));
    } else {
        assert(after.remove(key) == m);
    }
}

/// No count is larger than the sum of all.
pub proof fn law_sum_bounds_counts<K>(m: Map<K, u32>, key: K)
    requires
        m.dom().finite(),
    ensures
        count_of(m, key) <= sum_of(m),
{
    if m.contains_key(key) {
        lemma_sum_remove(m, key, any_key());
    }
}

/// Holds of this key only.
pub open spec fn just<K>(key: K) -> spec_fn(K) -> bool {
    |other: K| other == key
}

/// No count grows beyond what can be counted when these keys are counted once more.
pub open spec fn room_for<K>(m: Map<K, u32>, keys: Seq<K>) -> bool {
    forall|key: K| count_of(m, key) + #[trigger] how_many(keys, just(key)) <= u32::MAX
}

/// No key stands among these more often than can be counted.
pub open spec fn countable<K>(keys: Seq<K>) -> bool {
    forall|key: K| #[trigger] how_many(keys, just(key)) <= u32::MAX
}

proof fn lemma_room_for_fewer<K>(m: Map<K, u32>, keys: Seq<K>)
    requires
        keys.len() > 0,
        room_for(m, keys),
    ensures
        room_for(m, keys.drop_last()),
{
    assert forall|key: K| count_of(m, key) + #[trigger] how_many(keys.drop_last(), just(key))
        <= u32::MAX by {
        assert(count_of(m, key) + how_many(keys, just(key)) <= u32::MAX);
    }
}

/// However often keys are counted once more, the count of a key grows by how often it was
/// counted, reckoned in 32 bits.
pub proof fn law_count_is_how_often<K>(m: Map<K, u32>, keys: Seq<K>, key: K)
    ensures
        m.dom().finite() ==> counted_more(m, keys).dom().finite(),
        count_of(counted_more(m, keys), key) == (count_of(m, key) + how_many(keys, just(key)))
            % 0x1_0000_0000,
        counted_more(m, keys).contains_key(key) <==> m.contains_key(key) || how_many(
            keys,
            just(key),
        ) > 0,
    decreases keys.len(),
{
    if keys.len() > 0 {
        law_count_is_how_often(m, keys.drop_last(), key);
    }
}

/// Where no count grows beyond what can be counted, the sum of the counts of the keys that
/// `chosen` holds of grows by how many of the counted keys it holds of.
pub proof fn law_sums_grow<K>(m: Map<K, u32>, keys: Seq<K>, chosen: spec_fn(K) -> bool)
    requires
        m.dom().finite(),
        room_for(m, keys),
    ensures
        counted_more(m, keys).dom().finite(),
        sum_where(counted_more(m, keys), chosen) == sum_where(m, chosen) + how_many(keys, chosen),
    decreases keys.len(),
{
    if keys.len() > 0 {
        let fewer = keys.drop_last();
        let before = counted_more(m, fewer);
        let last = keys.last();
        lemma_room_for_fewer(m, keys);
        law_sums_grow(m, fewer, chosen);
        law_count_is_how_often(m, fewer, last);
        assert(count_of(m, last) + how_many(keys, just(last)) <= u32::MAX);
        law_counting_adds_one(before, last, chosen);
    }
}

/// Where no count grows beyond what can be counted, the sum of all counts grows by how many keys
/// were counted.
pub proof fn law_sum_grows_by_all<K>(m: Map<K, u32>, keys: Seq<K>)
    requires
        m.dom().finite(),
        room_for(m, keys),
    ensures
        sum_of(counted_more(m, keys)) == sum_of(m) + keys.len(),
{
    law_sums_grow(m, keys, any_key());
    lemma_any_key_is_all(keys);
}

/// However errors are counted, from none on, no key more often than can be counted: the counts of
/// the keys that `chosen` holds of add up to how many of the counted keys it holds of, and no key
/// is listed without having been counted.
pub proof fn law_counts_add_up<K>(keys: Seq<K>, chosen: spec_fn(K) -> bool)
    requires
        countable(keys),
    ensures
        counted_all(keys).dom().finite(),
        sum_where(counted_all(keys), chosen) == how_many(keys, chosen),
        forall|key: K| counted_all(keys).contains_key(key) ==> #[trigger] counted_all(keys)[key] >= 1,
{
    let none = Map::<K, u32>::empty();
    law_sums_grow(none, keys, chosen);
    assert forall|key: K| counted_all(keys).contains_key(key) implies #[trigger] counted_all(
        keys,
    )[key] >= 1 by {
        law_count_is_how_often(none, keys, key);
        assert(how_many(keys, just(key)) <= u32::MAX);
    }
}

proof fn lemma_any_key_is_all<K>(keys: Seq<K>)
    ensures
        how_many(keys, any_key()) == keys.len(),
    decreases keys.len(),
{
    if keys.len() > 0 {
        lemma_any_key_is_all(keys.drop_last());
    }
}

/// All counts add up to how many errors were counted.
pub proof fn law_sum_is_how_many<K>(keys: Seq<K>)
    requires
        countable(keys),
    ensures
        sum_of(counted_all(keys)) == keys.len(),
{
    law_counts_add_up(keys, any_key());
    lemma_any_key_is_all(keys);
}

/// However HTTP errors are counted, from none on: the counts under a status code add up to how
/// many errors with that code were counted, all counts add up to how many errors were counted,
/// and every count is at least one.
pub proof fn law_codes_add_up(keys: Seq<ErrKeyView>, code: u16)
    requires
        countable(keys),
    ensures
        sum_where(counted_all(keys), with_code(code)) == how_many(keys, with_code(code)),
        sum_of(counted_all(keys)) == keys.len(),
        forall|key: ErrKeyView|
            counted_all(keys).contains_key(key) ==> #[trigger] counted_all(keys)[key] >= 1,
{
    law_counts_add_up(keys, with_code(code));
    law_sum_is_how_many(keys);
}

/// However assertion errors are counted, from none on: all counts add up to how many errors were
/// counted, and every count is at least one.
pub proof fn law_assert_counts_add_up(keys: Seq<AssertErrKeyView>)
    requires
        countable(keys),
    ensures
        sum_of(counted_all(keys)) == keys.len(),
        forall|key: AssertErrKeyView|
            counted_all(keys).contains_key(key) ==> #[trigger] counted_all(keys)[key] >= 1,
{
    law_counts_add_up(keys, any_key());
    law_sum_is_how_many(keys);
}

/// Counting an error adds one to its own count and leaves every other count as it is.
pub proof fn law_counting_is_local<K>(m: Map<K, u32>, key: K, other: K)
    ensures
        count_of(counted_once(m, key), key) == count_of(m, key).wrapping_add(1),
        other != key ==> count_of(counted_once(m, key), other) == count_of(m, other),
{
}

/// A list in which no key stands twice says exactly what is counted: every entry is a key with its
/// count, and no key is counted that has no entry.
pub proof fn law_entries_are_the_counts<K>(s: Seq<(K, u32)>, i: int, key: K)
    requires
        keys_apart(s),
        0 <= i < s.len(),
    ensures
        counts(s).contains_key(s[i].0),
        counts(s)[s[i].0] == s[i].1,
        counts(s).contains_key(key) <==> exists|j: int| 0 <= j < s.len() && (#[trigger] s[j]).0 == key,
{
    assert forall|j: int| i < j < s.len() implies #[trigger] s[j].0 != s[i].0 by {
        assert(s[i].0 != s[j].0);
    }
    lemma_counts_update(s, i, s[i].1);
    if exists|j: int| 0 <= j < s.len() && (#[trigger] s[j]).0 == key {
        let j = choose|j: int| 0 <= j < s.len() && (#[trigger] s[j]).0 == key;
        assert forall|k: int| j < k < s.len() implies #[trigger] s[k].0 != s[j].0 by {
            assert(s[j].0 != s[k].0);
        }
        lemma_counts_update(s, j, s[j].1);
    } else {
        assert forall|j: int| 0 <= j < s.len() implies #[trigger] s[j].0 != key by {
            assert(s[j].0 == s[j].0);
        }
        lemma_counts_absent(s, key);
    }
}

} // verus!
