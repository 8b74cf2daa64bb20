//! The parameters of a media type: a mapping from keys to values, kept in the
//! order of its keys.

use vstd::prelude::*;
use vstd::utf8::encode_utf8;
use crate::bytes::lemma_before_irreflexive;
use crate::bytes::lemma_before_total;
use crate::bytes::lemma_before_transitive;
use crate::text::lemma_encode_injective;
use crate::text::text_before;
use crate::text::text_equal;
use crate::text::text_less;

verus! {

/// A sequence of pairs of a key and a value.
pub type Entries = Seq<(Seq<char>, Seq<char>)>;

/// Tests whether the keys of `ps` ascend strictly, in the lexicographic order
/// of their UTF-8 bytes. No key occurs twice then.
pub open spec fn sorted(ps: Entries) -> bool {
    forall|i: int, j: int|
        0 <= i < j < ps.len() ==> text_before((#[trigger] ps[i]).0, (#[trigger] ps[j]).0)
}

/// The position of the first pair of `ps` at or after `i` whose key does not
/// come before `key`, or the length of `ps` if there is none.
pub open spec fn slot(ps: Entries, key: Seq<char>, i: int) -> int
    decreases ps.len() - i,
{
    if 0 <= i < ps.len() && text_before(ps[i].0, key) {
        slot(ps, key, i + 1)
    } else {
        i
    }
}

/// Tests whether `ps` holds a pair under `key`.
pub open spec fn has_key(ps: Entries, key: Seq<char>) -> bool {
    exists|i: int| 0 <= i < ps.len() && (#[trigger] ps[i]).0 == key
}

/// The value that `ps` holds under `key`, if any.
pub open spec fn value_of(ps: Entries, key: Seq<char>) -> Option<Seq<char>> {
    if has_key(ps, key) {
        Some(ps[choose|i: int| 0 <= i < ps.len() && (#[trigger] ps[i]).0 == key].1)
    } else {
        None
    }
}

/// `ps` with `value` under `key`: in the place of the pair with that key, or
/// where the order of the keys puts a new one.
pub open spec fn put(ps: Entries, key: Seq<char>, value: Seq<char>) -> Entries {
    let at = slot(ps, key, 0);
    if at < ps.len() && ps[at].0 == key {
        ps.update(at, (key, value))
    } else {
        ps.insert(at, (key, value))
    }
}

/// `ps` without the pair under `key`.
pub open spec fn without(ps: Entries, key: Seq<char>) -> Entries {
    let at = slot(ps, key, 0);
    if at < ps.len() && ps[at].0 == key {
        ps.remove(at)
    } else {
        ps
    }
}

/// `slot` moves forward only and stops at the end; every key that it passes
/// comes before `key`, and the key at which it stops does not.
pub proof fn lemma_slot(ps: Entries, key: Seq<char>, i: int)
    requires
        0 <= i <= ps.len(),
    ensures
        i <= slot(ps, key, i) <= ps.len(),
        forall|j: int| i <= j < slot(ps, key, i) ==> text_before((#[trigger] ps[j]).0, key),
        slot(ps, key, i) < ps.len() ==> !text_before(ps[slot(ps, key, i)].0, key),
    decreases ps.len() - i,
{
    if i < ps.len() && text_before(ps[i].0, key) {
        lemma_slot(ps, key, i + 1);
    }
}

/// A position with only keys before `key` before it, which holds no such key
/// or is the end, is where `slot` stops.
pub proof fn lemma_slot_is(ps: Entries, key: Seq<char>, i: int, q: int)
    requires
        0 <= i <= q <= ps.len(),
        forall|j: int| i <= j < q ==> text_before((#[trigger] ps[j]).0, key),
        q < ps.len() ==> !text_before(ps[q].0, key),
    ensures
        slot(ps, key, i) == q,
    decreases q - i,
{
    if i < q {
        lemma_slot_is(ps, key, i + 1, q);
    }
}

/// In sorted pairs, a key is found at its slot and nowhere else.
pub proof fn lemma_slot_finds(ps: Entries, key: Seq<char>)
    requires
        sorted(ps),
    ensures
        has_key(ps, key) <==> slot(ps, key, 0) < ps.len() && ps[slot(ps, key, 0)].0 == key,
        has_key(ps, key) ==> value_of(ps, key) == Some(ps[slot(ps, key, 0)].1),
        forall|i: int| 0 <= i < ps.len() && (#[trigger] ps[i]).0 == key ==> i == slot(ps, key, 0),
{
    lemma_slot(ps, key, 0);
    let at = slot(ps, key, 0);
    assert forall|i: int| 0 <= i < ps.len() && (#[trigger] ps[i]).0 == key implies i == at by {
        lemma_before_irreflexive(encode_utf8(key), 0);
        if i < at {
            assert(text_before(ps[i].0, key));
        } else if at < i {
            assert(text_before(ps[at].0, ps[i].0));
        }
    }
    if at < ps.len() && ps[at].0 == key {
        assert(has_key(ps, key));
    }
}

/// Of two different keys one comes before the other, and never both.
pub proof fn lemma_key_order(a: Seq<char>, b: Seq<char>)
    ensures
        a != b ==> text_before(a, b) || text_before(b, a),
        !(text_before(a, b) && text_before(b, a)),
        !text_before(a, a),
{
    let x = encode_utf8(a);
    let y = encode_utf8(b);
    lemma_before_irreflexive(x, 0);
    if a != b {
        if x == y {
            lemma_encode_injective(a, b);
        }
        assert(x.subrange(0, 0) =~= y.subrange(0, 0));
        lemma_before_total(x, y, 0);
    }
    if text_before(a, b) && text_before(b, a) {
        lemma_before_transitive(x, y, x, 0);
    }
}

/// `put` keeps the keys in order.
pub proof fn lemma_put_sorted(ps: Entries, key: Seq<char>, value: Seq<char>)
    requires
        sorted(ps),
    ensures
        sorted(put(ps, key, value)),
{
    lemma_slot(ps, key, 0);
    let at = slot(ps, key, 0);
    let qs = put(ps, key, value);
    if at < ps.len() && ps[at].0 == key {
        assert forall|i: int, j: int| 0 <= i < j < qs.len() implies text_before(
            (#[trigger] qs[i]).0,
            (#[trigger] qs[j]).0,
        ) by {
            assert(qs[i].0 == ps[i].0);
            assert(qs[j].0 == ps[j].0);
        }
    } else {
        assert forall|i: int, j: int| 0 <= i < j < qs.len() implies text_before(
            (#[trigger] qs[i]).0,
            (#[trigger] qs[j]).0,
        ) by {
            if j < at {
                assert(qs[i] == ps[i] && qs[j] == ps[j]);
            } else if j == at {
                assert(qs[i] == ps[i]);
            } else if i < at {
                assert(qs[i] == ps[i] && qs[j] == ps[j - 1]);
            } else if i == at {
                assert(qs[j] == ps[j - 1]);
                lemma_key_order(ps[at].0, key);
                if at < j - 1 {
                    assert(text_before(ps[at].0, ps[j - 1].0));
                    lemma_before_transitive(
                        encode_utf8(key),
                        encode_utf8(ps[at].0),
                        encode_utf8(ps[j - 1].0),
                        0,
                    );
                }
            } else {
                assert(qs[i] == ps[i - 1] && qs[j] == ps[j - 1]);
            }
        }
    }
}

/// `without` keeps the keys in order.
pub proof fn lemma_without_sorted(ps: Entries, key: Seq<char>)
    requires
        sorted(ps),
    ensures
        sorted(without(ps, key)),
{
    lemma_slot(ps, key, 0);
    let at = slot(ps, key, 0);
    let qs = without(ps, key);
    if at < ps.len() && ps[at].0 == key {
        assert forall|i: int, j: int| 0 <= i < j < qs.len() implies text_before(
            (#[trigger] qs[i]).0,
            (#[trigger] qs[j]).0,
        ) by {
            let a = if i < at {
                i
            } else {
                i + 1
            };
            let b = if j < at {
                j
            } else {
                j + 1
            };
            assert(qs[i] == ps[a] && qs[j] == ps[b]);
        }
    }
}

/// What sorted pairs hold after `put`: `value` under `key`, and under every
/// other key what they held before.
pub proof fn law_put(ps: Entries, key: Seq<char>, value: Seq<char>, other: Seq<char>)
    requires
        sorted(ps),
    ensures
        value_of(put(ps, key, value), key) == Some(value),
        other != key ==> value_of(put(ps, key, value), other) == value_of(ps, other),
{
    lemma_slot(ps, key, 0);
    lemma_put_sorted(ps, key, value);
    let at = slot(ps, key, 0);
    let qs = put(ps, key, value);
    assert(qs[at] == (key, value));
    lemma_slot_finds(qs, key);
    if other != key {
        lemma_slot_finds(ps, other);
        lemma_slot_finds(qs, other);
        if has_key(ps, other) {
            let i = slot(ps, other, 0);
            let j = if at < ps.len() && ps[at].0 == key || i < at {
                i
            } else {
                i + 1
            };
            assert(qs[j] == ps[i]);
        }
        if has_key(qs, other) {
            let j = slot(qs, other, 0);
            let i = if at < ps.len() && ps[at].0 == key || j < at {
                j
            } else {
                j - 1
            };
            assert(qs[j] == ps[i]);
        }
    }
}

/// What sorted pairs hold after `without`: nothing under `key`, and under
/// every other key what they held before.
pub proof fn law_without(ps: Entries, key: Seq<char>, other: Seq<char>)
    requires
        sorted(ps),
    ensures
        value_of(without(ps, key), key) is None,
        other != key ==> value_of(without(ps, key), other) == value_of(ps, other),
{
    lemma_slot(ps, key, 0);
    lemma_without_sorted(ps, key);
    lemma_slot_finds(ps, key);
    let at = slot(ps, key, 0);
    let qs = without(ps, key);
    if has_key(qs, key) {
        let j = choose|j: int| 0 <= j < qs.len() && (#[trigger] qs[j]).0 == key;
        if at < ps.len() && ps[at].0 == key {
            let i = if j < at {
                j
            } else {
                j + 1
            };
            assert(ps[i] == qs[j]);
        } else {
            assert(ps[j] == qs[j]);
        }
    }
    if other != key {
        lemma_slot_finds(ps, other);
        lemma_slot_finds(qs, other);
        if at < ps.len() && ps[at].0 == key {
            if has_key(ps, other) {
                let i = slot(ps, other, 0);
                let j = if i < at {
                    i
                } else {
                    i - 1
                };
                assert(qs[j] == ps[i]);
            }
            if has_key(qs, other) {
                let j = slot(qs, other, 0);
                let i = if j < at {
                    j
                } else {
                    j + 1
                };
                assert(qs[j] == ps[i]);
            }
        }
    }
}

/// The parameters of a media type: values under keys, with no key twice,
/// kept in the lexicographic order of the keys' UTF-8 bytes.
#[derive(Debug)]
pub struct Parameters {
    entries: Vec<(String, String)>,
}

/// The pairs of `entries` as texts.
spec fn entries_view(entries: Seq<(String, String)>) -> Entries {
    Seq::new(entries.len(), |i: int| (entries[i].0@, entries[i].1@))
}

impl View for Parameters {
    type V = Entries;

    closed spec fn view(&self) -> Entries {
        entries_view(self.entries@)
    }
}

impl Parameters {
    #[verifier::type_invariant]
    spec fn well_formed(&self) -> bool {
        sorted(self@)
    }

    /// No parameters.
    pub fn new() -> (r: Parameters)
        ensures
            r@ == Entries::empty(),
    {
        let r = Parameters { entries: Vec::new() };
        assert(r@ =~= Entries::empty());
        r
    }

    /// The number of parameters. Their keys are in order.
    pub fn len(&self) -> (r: usize)
        ensures
            r == self@.len(),
            sorted(self@),
    {
        proof {
            use_type_invariant(self);
        }
        self.entries.len()
    }

    /// Tests whether there is no parameter.
    pub fn is_empty(&self) -> (r: bool)
        ensures
            r == (self@.len() == 0),
    {
        self.entries.len() == 0
    }

    /// The key of the parameter at position `i`, counted in the order of the
    /// keys.
    pub fn key_at(&self, i: usize) -> (r: &String)
        requires
            i < self@.len(),
        ensures
            r@ == self@[i as int].0,
    {
        &self.entries[i].0
    }

    /// The value of the parameter at position `i`, counted in the order of the
    /// keys.
    pub fn value_at(&self, i: usize) -> (r: &String)
        requires
            i < self@.len(),
        ensures
            r@ == self@[i as int].1,
    {
        &self.entries[i].1
    }

    /// The position of `key`, or of the first key after it.
    fn find(&self, key: &str) -> (at: usize)
        ensures
            at == slot(self@, key@, 0),
            at <= self@.len(),
    {
        let n = self.entries.len();
        let mut i: usize = 0;
        while i < n && text_less(self.entries[i].0.as_str(), key)
            invariant
                i <= n,
                n == self@.len(),
                slot(self@, key@, i as int) == slot(self@, key@, 0),
                forall|j: int| 0 <= j < n ==> (#[trigger] self@[j]).0 == self.entries@[j].0@,
            decreases n - i,
        {
            i += 1;
        }
        i
    }

    /// The value under `key`, if there is one.
    pub fn get(&self, key: &str) -> (r: Option<&String>)
        ensures
            match value_of(self@, key@) {
                Some(value) => r matches Some(found) && found@ == value,
                None => r is None,
            },
    {
        proof {
            use_type_invariant(self);
            lemma_slot_finds(self@, key@);
        }
        let at = self.find(key);
        if at < self.entries.len() && text_equal(self.entries[at].0.as_str(), key) {
            Some(&self.entries[at].1)
        } else {
            None
        }
    }

    /// Tests whether there is a value under `key`.
    pub fn contains_key(&self, key: &str) -> (r: bool)
        ensures
            r == has_key(self@, key@),
    {
        self.get(key).is_some()
    }

    /// Puts `value` under `key`, and returns the value that was there before.
    pub fn insert(&mut self, key: String, value: String) -> (r: Option<String>)
        ensures
            final(self)@ == put(old(self)@, key@, value@),
            sorted(old(self)@),
            sorted(final(self)@),
            match value_of(old(self)@, key@) {
                Some(before) => r matches Some(found) && found@ == before,
                None => r is None,
            },
    {
        proof {
            use_type_invariant(&*self);
            lemma_slot_finds(self@, key@);
            lemma_put_sorted(self@, key@, value@);
        }
        let at = self.find(key.as_str());
        if at < self.entries.len() && text_equal(self.entries[at].0.as_str(), key.as_str()) {
            let ghost target = put(self@, key@, value@);
            let mut entries: Vec<(String, String)> = Vec::new();
            core::mem::swap(&mut self.entries, &mut entries);
            let before = entries.remove(at);
            entries.insert(at, (key, value));
            assert(entries_view(entries@) =~= target);
            self.entries = entries;
            Some(before.1)
        } else {
            let ghost target = put(self@, key@, value@);
            let mut entries: Vec<(String, String)> = Vec::new();
            core::mem::swap(&mut self.entries, &mut entries);
            entries.insert(at, (key, value));
            assert(entries_view(entries@) =~= target);
            self.entries = entries;
            None
        }
    }

    /// Takes the parameter under `key` out, and returns the value that was
    /// there.
    pub fn remove(&mut self, key: &str) -> (r: Option<String>)
        ensures
            final(self)@ == without(old(self)@, key@),
            sorted(old(self)@),
            sorted(final(self)@),
            match value_of(old(self)@, key@) {
                Some(before) => r matches Some(found) && found@ == before,
                None => r is None,
            },
    {
        proof {
            use_type_invariant(&*self);
            lemma_slot_finds(self@, key@);
            lemma_without_sorted(self@, key@);
        }
        let at = self.find(key);
        if at < self.entries.len() && text_equal(self.entries[at].0.as_str(), key) {
            let ghost target = without(self@, key@);
            let mut entries: Vec<(String, String)> = Vec::new();
            core::mem::swap(&mut self.entries, &mut entries);
            let pair = entries.remove(at);
            assert(entries_view(entries@) =~= target);
            self.entries = entries;
            Some(pair.1)
        } else {
            None
        }
    }
}

impl Clone for Parameters {
    /// A copy with the same values under the same keys.
    fn clone(&self) -> (r: Parameters)
        ensures
            r@ == self@,
    {
        proof {
            use_type_invariant(self);
        }
        let n = self.entries.len();
        let mut entries: Vec<(String, String)> = Vec::new();
        let mut i: usize = 0;
        while i < n
            invariant
                i <= n,
                n == self.entries@.len(),
                entries_view(entries@) == self@.subrange(0, i as int),
            decreases n - i,
        {
            let key = self.entries[i].0.clone();
            let value = self.entries[i].1.clone();
            let ghost before = entries_view(entries@);
            entries.push((key, value));
            assert(entries_view(entries@) =~= before.push(self@[i as int]));
            i += 1;
            assert(entries_view(entries@) =~= self@.subrange(0, i as int));
        }
        assert(entries_view(entries@) =~= self@);
        Parameters { entries }
    }
}

impl PartialEq for Parameters {
    /// Tests whether both hold the same values under the same keys.
    fn eq(&self, other: &Parameters) -> (r: bool) {
        let n = self.entries.len();
        if n != other.entries.len() {
            return false;
        }
        let mut i: usize = 0;
        while i < n
            invariant
                i <= n,
                n == self@.len(),
                n == other@.len(),
                forall|j: int| 0 <= j < i ==> self@[j] == other@[j],
            decreases n - i,
        {
            if !text_equal(self.entries[i].0.as_str(), other.entries[i].0.as_str()) || !text_equal(
                self.entries[i].1.as_str(),
                other.entries[i].1.as_str(),
            ) {
                assert(self@[i as int] != other@[i as int]);
                return false;
            }
            i += 1;
        }
        assert(self@ =~= other@);
        true
    }
}

impl vstd::std_specs::cmp::PartialEqSpecImpl for Parameters {
    open spec fn obeys_eq_spec() -> bool {
        true
    }

    open spec fn eq_spec(&self, other: &Parameters) -> bool {
        self@ == other@
    }
}

impl Eq for Parameters {

}

} // verus!
