//! Session caches: model translations by source and by value, and new
//! translations waiting to be written to the dictionary.

use vstd::prelude::*;

use dashmap::DashMap;

use crate::text::str_equal;

verus! {

/// New translation entries in insertion order; each key occurs once, the
/// first value given for it is kept.
pub struct NewEntriesCache {
    inner: Vec<(String, String)>,
}

pub open spec fn entry_view(e: (String, String)) -> (Seq<char>, Seq<char>) {
    (e.0@, e.1@)
}

/// No key occurs twice.
pub open spec fn keys_distinct(entries: Seq<(Seq<char>, Seq<char>)>) -> bool {
    forall|i: int, j: int|
        0 <= i < entries.len() && 0 <= j < entries.len() && i != j ==> (#[trigger] entries[i]).0
            != (#[trigger] entries[j]).0
}

pub open spec fn has_key(entries: Seq<(Seq<char>, Seq<char>)>, key: Seq<char>) -> bool {
    exists|i: int| 0 <= i < entries.len() && (#[trigger] entries[i]).0 == key
}

impl View for NewEntriesCache {
    type V = Seq<(Seq<char>, Seq<char>)>;

    closed spec fn view(&self) -> Seq<(Seq<char>, Seq<char>)> {
        self.inner@.map_values(|e: (String, String)| entry_view(e))
    }
}

impl NewEntriesCache {
    /// The cache's invariant: keys are distinct.
    pub open spec fn well_formed(&self) -> bool {
        keys_distinct(self@)
    }

    /// An empty cache.
    pub fn new() -> (r: Self)
        ensures
            r@ == Seq::<(Seq<char>, Seq<char>)>::empty(),
            r.well_formed(),
    {
        let r = NewEntriesCache { inner: Vec::new() };
        assert(r@ =~= Seq::<(Seq<char>, Seq<char>)>::empty());
        r
    }

    /// Appends `(key, value)` unless `key` is already held.
    pub fn insert(&mut self, key: String, value: String)
        requires
            old(self).well_formed(),
        ensures
            final(self).well_formed(),
            has_key(old(self)@, key@) ==> final(self)@ == old(self)@,
            !has_key(old(self)@, key@) ==> final(self)@ == old(self)@.push((key@, value@)),
    {
        let ghost before = self@;
        let mut i: usize = 0;
        while i < self.inner.len()
            invariant
                before == self@,
                keys_distinct(before),
                i <= self.inner@.len(),
                self@.len() == self.inner@.len(),
                forall|j: int| 0 <= j < i ==> (#[trigger] self@[j]).0 != key@,
            decreases self.inner.len() - i,
        {
            assert(self@[i as int] == entry_view(self.inner@[i as int]));
            if str_equal(self.inner[i].0.as_str(), key.as_str()) {
                return;
            }
            i += 1;
        }
        let ghost kv = key@;
        let ghost vv = value@;
        self.inner.push((key, value));
        assert(self@ =~= before.push((kv, vv)));
        assert(keys_distinct(self@)) by {
            assert forall|a: int, b: int|
                0 <= a < self@.len() && 0 <= b < self@.len() && a != b implies (#[trigger] self@[a]).0
                != (#[trigger] self@[b]).0 by {
                if a < before.len() && b < before.len() {
                    assert(before[a] == self@[a] && before[b] == self@[b]);
                } else if a < before.len() {
                    assert(before[a] == self@[a]);
                } else if b < before.len() {
                    assert(before[b] == self@[b]);
                }
            }
        }
    }

    /// Whether the cache holds no entry.
    pub fn is_empty(&self) -> (r: bool)
        ensures
            r == (self@.len() == 0),
    {
        self.inner.len() == 0
    }

    /// All entries in insertion order; the cache is left empty.
    pub fn drain(&mut self) -> (r: Vec<(String, String)>)
        ensures
            r@.map_values(|e: (String, String)| entry_view(e)) == old(self)@,
            final(self)@ == Seq::<(Seq<char>, Seq<char>)>::empty(),
            final(self).well_formed(),
    {
        let mut out: Vec<(String, String)> = Vec::new();
        std::mem::swap(&mut out, &mut self.inner);
        assert(self@ =~= Seq::<(Seq<char>, Seq<char>)>::empty());
        out
    }
}

impl Default for NewEntriesCache {
    fn default() -> (r: Self)
        ensures
            r@ == Seq::<(Seq<char>, Seq<char>)>::empty(),
            r.well_formed(),
    {
        Self::new()
    }
}

/// After `k` is inserted, the cache holds `k`, and it keeps the value that
/// it held first: a later insert of a held key changes nothing.
pub proof fn lemma_first_insert_wins(
    before: Seq<(Seq<char>, Seq<char>)>,
    after: Seq<(Seq<char>, Seq<char>)>,
    k: Seq<char>,
    v: Seq<char>,
)
    requires
        keys_distinct(before),
        has_key(before, k) ==> after == before,
        !has_key(before, k) ==> after == before.push((k, v)),
    ensures
        has_key(after, k),
        forall|i: int| 0 <= i < before.len() ==> after[i] == before[i],
        keys_distinct(after),
{
    if !has_key(before, k) {
        assert(after[before.len() as int].0 == k);
    }
}


// ---------------------------------------------------------------------------
// Translations of this session
// ---------------------------------------------------------------------------

#[verifier::external_type_specification]
#[verifier::external_body]
#[verifier::reject_recursive_types(K)]
#[verifier::reject_recursive_types(V)]
#[verifier::reject_recursive_types(S)]
pub struct ExDashMap<K, V, S>(DashMap<K, V, S>);

/// The map that holds nothing.
pub open spec fn empty_text_map() -> Map<Seq<char>, Seq<char>> {
    Map::empty()
}

/// The key-value pairs that a `DashMap<String, String>` holds.
pub uninterp spec fn dash_contents(m: DashMap<String, String>) -> Map<Seq<char>, Seq<char>>;

/// `DashMap::new`. Claims: the map holds nothing.
#[verifier::external_body]
fn dash_new() -> (r: DashMap<String, String>)
    ensures
        dash_contents(r) == empty_text_map(),
{
    DashMap::new()
}

/// `DashMap::insert`. Claims: afterwards `key` maps to `value` and every
/// other key is as it was (`String` keys compare by content).
#[verifier::external_body]
fn dash_insert(m: &mut DashMap<String, String>, key: String, value: String)
    ensures
        dash_contents(*final(m)) == dash_contents(*old(m)).insert(key@, value@),
{
    m.insert(key, value);
}

/// `DashMap::entry` with `Entry::or_insert`. Claims: a held key keeps its
/// value; an absent key is inserted with `value`.
#[verifier::external_body]
fn dash_insert_if_absent(m: &mut DashMap<String, String>, key: String, value: String)
    ensures
        dash_contents(*old(m)).contains_key(key@) ==> dash_contents(*final(m)) == dash_contents(*old(m)),
        !dash_contents(*old(m)).contains_key(key@) ==> dash_contents(*final(m)) == dash_contents(
            *old(m),
        ).insert(key@, value@),
{
    m.entry(key).or_insert(value);
}

/// `DashMap::get`, with the value copied out. Claims: the value held
/// under `key`, or `None` where the map has no such key.
#[verifier::external_body]
fn dash_get(m: &DashMap<String, String>, key: &str) -> (r: Option<String>)
    ensures
        match r {
            Some(v) => dash_contents(*m).contains_key(key@) && dash_contents(*m)[key@] == v@,
            None => !dash_contents(*m).contains_key(key@),
        },
{
    match m.get(key) {
        Some(entry) => Some(entry.value().clone()),
        None => None,
    }
}

/// `DashMap::clear`. Claims: the map holds nothing afterwards.
#[verifier::external_body]
fn dash_clear(m: &mut DashMap<String, String>)
    ensures
        dash_contents(*final(m)) == empty_text_map(),
{
    m.clear();
}

/// Model translations of this session: by source text, and each non-empty
/// translated value by itself, so that a text that already is a
/// translation is recognised. Keys are raw: nothing is trimmed or folded.
pub struct TranslationCache {
    source_index: DashMap<String, String>,
    value_index: DashMap<String, String>,
}

impl TranslationCache {
    /// Translations by source.
    pub closed spec fn sources(&self) -> Map<Seq<char>, Seq<char>> {
        dash_contents(self.source_index)
    }

    /// Translated values seen, each mapped to itself.
    pub closed spec fn values(&self) -> Map<Seq<char>, Seq<char>> {
        dash_contents(self.value_index)
    }

    pub fn new() -> (r: Self)
        ensures
            r.sources() == empty_text_map(),
            r.values() == empty_text_map(),
    {
        TranslationCache { source_index: dash_new(), value_index: dash_new() }
    }

    /// Records a translation: the source maps to the value, and a
    /// non-empty value is recorded as seen, keeping an earlier record.
    pub fn insert(&mut self, key: String, value: String)
        ensures
            final(self).sources() == old(self).sources().insert(key@, value@),
            value@.len() == 0 ==> final(self).values() == old(self).values(),
            value@.len() > 0 && old(self).values().contains_key(value@) ==> final(self).values()
                == old(self).values(),
            value@.len() > 0 && !old(self).values().contains_key(value@) ==> final(self).values()
                == old(self).values().insert(value@, value@),
    {
        let v2 = value.clone();
        dash_insert(&mut self.source_index, key, value);
        if v2.as_str().unicode_len() > 0 {
            let v3 = v2.clone();
            dash_insert_if_absent(&mut self.value_index, v2, v3);
        }
    }

    /// The translation recorded for exactly this source.
    pub fn lookup_source(&self, key: &str) -> (r: Option<String>)
        ensures
            match r {
                Some(v) => self.sources().contains_key(key@) && self.sources()[key@] == v@,
                None => !self.sources().contains_key(key@),
            },
    {
        dash_get(&self.source_index, key)
    }

    /// The text itself where it was seen as a translation.
    pub fn lookup_value(&self, text: &str) -> (r: Option<String>)
        ensures
            match r {
                Some(v) => self.values().contains_key(text@) && self.values()[text@] == v@,
                None => !self.values().contains_key(text@),
            },
    {
        dash_get(&self.value_index, text)
    }

    /// Forgets everything.
    pub fn clear(&mut self)
        ensures
            final(self).sources() == empty_text_map(),
            final(self).values() == empty_text_map(),
    {
        dash_clear(&mut self.source_index);
        dash_clear(&mut self.value_index);
    }
}

impl Default for TranslationCache {
    fn default() -> (r: Self)
        ensures
            r.sources() == empty_text_map(),
            r.values() == empty_text_map(),
    {
        Self::new()
    }
}

/// A value recorded as seen is found by itself: after an insert of a
/// non-empty value, looking that value up gives the value back.
pub proof fn lemma_value_observed(before: Map<Seq<char>, Seq<char>>, after: Map<Seq<char>, Seq<char>>, v: Seq<char>)
    requires
        forall|k: Seq<char>| before.contains_key(k) ==> before[k] == k,
        before.contains_key(v) ==> after == before,
        !before.contains_key(v) ==> after == before.insert(v, v),
    ensures
        after.contains_key(v),
        after[v] == v,
        forall|k: Seq<char>| after.contains_key(k) ==> after[k] == k,
{
}

} // verus!
