//! Occurrence counts per field name, kept in the byte order of the names
//! (the order of `String` keys in a `BTreeMap`).

use vstd::prelude::*;
use vstd::utf8::{encode_utf8, encode_utf8_decode_utf8};

use crate::text::{decimal, push_decimal, str_eq};

verus! {

/// Lexicographic order on byte strings (a proper prefix comes first).
pub open spec fn bytes_less(a: Seq<u8>, b: Seq<u8>) -> bool
    decreases a.len(),
{
    if a.len() == 0 {
        b.len() > 0
    } else if b.len() == 0 {
        false
    } else if a[0] < b[0] {
        true
    } else if a[0] > b[0] {
        false
    } else {
        bytes_less(a.drop_first(), b.drop_first())
    }
}

/// No byte string comes before itself.
pub proof fn lemma_bytes_less_irreflexive(a: Seq<u8>)
    ensures
        !bytes_less(a, a),
    decreases a.len(),
{
    if a.len() > 0 {
        lemma_bytes_less_irreflexive(a.drop_first());
    }
}

/// The order is transitive.
pub proof fn lemma_bytes_less_transitive(a: Seq<u8>, b: Seq<u8>, c: Seq<u8>)
    requires
        bytes_less(a, b),
        bytes_less(b, c),
    ensures
        bytes_less(a, c),
    decreases a.len(),
{
    if a.len() > 0 && b.len() > 0 && c.len() > 0 && a[0] == b[0] && b[0] == c[0] {
        lemma_bytes_less_transitive(a.drop_first(), b.drop_first(), c.drop_first());
    }
}

/// Two different byte strings are ordered one way or the other.
pub proof fn lemma_bytes_less_total(a: Seq<u8>, b: Seq<u8>)
    requires
        a != b,
    ensures
        bytes_less(a, b) || bytes_less(b, a),
    decreases a.len(),
{
    if a.len() > 0 && b.len() > 0 && a[0] == b[0] {
        if a.drop_first() == b.drop_first() {
            assert(a =~= seq![a[0]] + a.drop_first());
            assert(b =~= seq![b[0]] + b.drop_first());
        }
        lemma_bytes_less_total(a.drop_first(), b.drop_first());
    } else if a.len() == 0 && b.len() == 0 {
        assert(a =~= b);
    }
}

/// Strings with the same UTF-8 encoding hold the same characters.
pub proof fn lemma_encoding_injective(a: Seq<char>, b: Seq<char>)
    requires
        encode_utf8(a) == encode_utf8(b),
    ensures
        a == b,
{
    encode_utf8_decode_utf8(a);
    encode_utf8_decode_utf8(b);
}

/// Whether `a` comes before `b` in byte order.
pub fn bytes_lt(a: &[u8], b: &[u8]) -> (r: bool)
    ensures
        r == bytes_less(a@, b@),
{
    let mut i: usize = 0;
    assert(a@.skip(0) == a@ && b@.skip(0) == b@);
    while i < a.len() && i < b.len() && a[i] == b[i]
        invariant
            i <= a.len(),
            i <= b.len(),
            bytes_less(a@, b@) == bytes_less(a@.skip(i as int), b@.skip(i as int)),
        decreases a.len() - i,
    {
        assert(a@.skip(i as int).drop_first() == a@.skip(i + 1));
        assert(b@.skip(i as int).drop_first() == b@.skip(i + 1));
        i = i + 1;
    }
    if i == a.len() {
        i < b.len()
    } else if i == b.len() {
        false
    } else {
        a[i] < b[i]
    }
}

/// The UTF-8 bytes of a key.
pub open spec fn key_bytes(entry: (String, usize)) -> Seq<u8> {
    encode_utf8(entry.0@)
}

/// Whether the keys of `entries` are strictly increasing in byte order.
pub open spec fn strictly_sorted(entries: Seq<(String, usize)>) -> bool {
    forall|i: int, j: int|
        0 <= i < j < entries.len() ==> bytes_less(#[trigger] key_bytes(entries[i]), #[trigger] key_bytes(entries[j]))
}

/// Whether some entry has key `key`.
pub open spec fn has_key(entries: Seq<(String, usize)>, key: Seq<char>) -> bool {
    exists|i: int| 0 <= i < entries.len() && entries[i].0@ == key
}

/// The count in `counts` for `key`, zero when absent.
pub open spec fn count_of(counts: Map<Seq<char>, nat>, key: Seq<char>) -> nat {
    if counts.contains_key(key) {
        counts[key]
    } else {
        0
    }
}

/// The position of an entry with key `key`.
pub open spec fn position(entries: Seq<(String, usize)>, key: Seq<char>) -> int {
    choose|i: int| 0 <= i < entries.len() && entries[i].0@ == key
}

/// The counts held by `entries`.
pub open spec fn entries_map(entries: Seq<(String, usize)>) -> Map<Seq<char>, nat> {
    Map::new(
        |key: Seq<char>| has_key(entries, key),
        |key: Seq<char>| entries[position(entries, key)].1 as nat,
    )
}

/// `field xN` for each entry, joined by `, `.
pub open spec fn summary_text(entries: Seq<(String, usize)>) -> Seq<char>
    decreases entries.len(),
{
    if entries.len() == 0 {
        Seq::empty()
    } else {
        let item = entries.last().0@ + " x"@ + decimal(entries.last().1 as nat);
        if entries.len() == 1 {
            item
        } else {
            summary_text(entries.drop_last()) + ", "@ + item
        }
    }
}

/// Occurrence counts per field name.
#[derive(Debug)]
pub struct FieldCounts {
    entries: Vec<(String, usize)>,
}

impl View for FieldCounts {
    type V = Map<Seq<char>, nat>;

    closed spec fn view(&self) -> Map<Seq<char>, nat> {
        entries_map(self.entries@)
    }
}

/// In strictly sorted entries, the entry with a given key is the one at `i`.
proof fn lemma_entry_unique(entries: Seq<(String, usize)>, i: int, j: int)
    requires
        strictly_sorted(entries),
        0 <= i < entries.len(),
        0 <= j < entries.len(),
        entries[i].0@ == entries[j].0@,
    ensures
        i == j,
{
    if i < j {
        assert(bytes_less(key_bytes(entries[i]), key_bytes(entries[j])));
        lemma_bytes_less_irreflexive(key_bytes(entries[i]));
    } else if j < i {
        assert(bytes_less(key_bytes(entries[j]), key_bytes(entries[i])));
        lemma_bytes_less_irreflexive(key_bytes(entries[i]));
    }
}

impl FieldCounts {
    #[verifier::type_invariant]
    closed spec fn inv(self) -> bool {
        strictly_sorted(self.entries@)
    }

    /// No field counted yet.
    pub fn new() -> (counts: FieldCounts)
        ensures
            counts@ == Map::<Seq<char>, nat>::empty(),
    {
        let counts = FieldCounts { entries: Vec::new() };
        assert(counts@ =~= Map::<Seq<char>, nat>::empty());
        counts
    }

    /// The count for `field` (zero when never counted).
    pub fn get(&self, field: &str) -> (n: usize)
        ensures
            n as nat == count_of(self@, field@),
    {
        proof { use_type_invariant(self); }
        let mut i: usize = 0;
        while i < self.entries.len()
            invariant
                i <= self.entries.len(),
                strictly_sorted(self.entries@),
                forall|j: int| 0 <= j < i ==> self.entries@[j].0@ != field@,
            decreases self.entries.len() - i,
        {
            if str_eq(self.entries[i].0.as_str(), field) {
                proof {
                    let c = position(self.entries@, field@);
                    lemma_entry_unique(self.entries@, i as int, c);
                }
                return self.entries[i].1;
            }
            i = i + 1;
        }
        0
    }

    /// The number of fields counted.
    pub fn len(&self) -> (n: usize)
        ensures
            n == self.entries().len(),
    {
        self.entries.len()
    }

    /// Whether no field was counted.
    pub fn is_empty(&self) -> (empty: bool)
        ensures
            empty == (self@ == Map::<Seq<char>, nat>::empty()),
    {
        if self.entries.len() == 0 {
            assert(self@ =~= Map::<Seq<char>, nat>::empty());
            true
        } else {
            assert(self@.contains_key(self.entries@[0].0@));
            false
        }
    }

    /// The (field, count) pairs in byte order of the field names.
    pub closed spec fn entries(&self) -> Seq<(String, usize)> {
        self.entries@
    }

    /// The (field, count) pairs in byte order of the field names: exactly
    /// the counted fields, each once.
    pub fn entries_vec(&self) -> (entries: &Vec<(String, usize)>)
        ensures
            entries@ == self.entries(),
            strictly_sorted(entries@),
            forall|key: Seq<char>| self@.contains_key(key) <==> has_key(entries@, key),
            forall|i: int|
                0 <= i < entries@.len() ==> self@[#[trigger] entries@[i].0@] == entries@[i].1 as nat,
    {
        proof {
            use_type_invariant(self);
            assert forall|i: int| 0 <= i < self.entries@.len() implies self@[#[trigger] self.entries@[i].0@] == self.entries@[i].1 as nat by {
                let k = self.entries@[i].0@;
                assert(has_key(self.entries@, k));
                let c = position(self.entries@, k);
                lemma_entry_unique(self.entries@, i, c);

            }
        }
        &self.entries
    }

    /// `field xN` for each counted field in byte order, joined by `, `.
    pub fn summary(&self) -> (text: String)
        ensures
            text@ == summary_text(self.entries()),
    {
        let mut text = String::new();
        let mut i: usize = 0;
        assert(self.entries@.take(0) =~= Seq::<(String, usize)>::empty());
        while i < self.entries.len()
            invariant
                i <= self.entries.len(),
                text@ == summary_text(self.entries@.take(i as int)),
            decreases self.entries.len() - i,
        {
            let ghost before = text@;
            if i > 0 {
                text.append(", ");
            }
            text.append(self.entries[i].0.as_str());
            text.append(" x");
            push_decimal(&mut text, self.entries[i].1 as u64);
            proof {
                let next = self.entries@.take(i + 1);
                assert(next.drop_last() == self.entries@.take(i as int));
                assert(next.last() == self.entries@[i as int]);
                if i == 0 {
                    assert(before == Seq::<char>::empty());
                }
                assert(text@ =~= summary_text(next));
            }
            i = i + 1;
        }
        assert(self.entries@.take(i as int) == self.entries@);
        text
    }

    /// Count one more occurrence of `field`.
    pub fn bump(&mut self, field: &str)
        requires
            count_of(old(self)@, field@) < usize::MAX,
        ensures
            final(self)@ == old(self)@.insert(field@, count_of(old(self)@, field@) + 1),
    {
        proof { use_type_invariant(&*self); }
        let mut entries: Vec<(String, usize)> = Vec::new();
        std::mem::swap(&mut entries, &mut self.entries);
        let ghost old_entries = entries@;
        assert(old(self)@ == entries_map(old_entries));
        let key = field.as_bytes();
        let mut i: usize = 0;
        while i < entries.len() && bytes_lt(entries[i].0.as_str().as_bytes(), key)
            invariant
                i <= entries.len(),
                entries@ == old_entries,
                strictly_sorted(old_entries),
                key@ == encode_utf8(field@),
                forall|j: int| 0 <= j < i ==> bytes_less(#[trigger] key_bytes(old_entries[j]), key@),
            decreases entries.len() - i,
        {
            i = i + 1;
        }
        // every entry before `i` is below the field, so none of them holds it
        assert forall|j: int| 0 <= j < i implies old_entries[j].0@ != field@ by {
            assert(bytes_less(key_bytes(old_entries[j]), key@));
            if old_entries[j].0@ == field@ {
                lemma_bytes_less_irreflexive(key@);
            }
        }
        if i < entries.len() && str_eq(entries[i].0.as_str(), field) {
            let count = entries[i].1;
            proof {
                let c = position(old_entries, field@);
                lemma_entry_unique(old_entries, i as int, c);
                assert(count_of(old(self)@, field@) == count as nat);
            }
            let name = entries[i].0.clone();
            entries.set(i, (name, count + 1));
            proof {
                let new_entries = entries@;
                assert(strictly_sorted(new_entries)) by {
                    assert forall|a: int, b: int| 0 <= a < b < new_entries.len() implies bytes_less(
                        #[trigger] key_bytes(new_entries[a]),
                        #[trigger] key_bytes(new_entries[b]),
                    ) by {
                        assert(key_bytes(new_entries[a]) == key_bytes(old_entries[a]));
                        assert(key_bytes(new_entries[b]) == key_bytes(old_entries[b]));
                    }
                }
                assert forall|k: Seq<char>| #[trigger] has_key(new_entries, k) == has_key(old_entries, k) by {
                    if has_key(old_entries, k) {
                        let w = position(old_entries, k);
                        assert(new_entries[w].0@ == k);
                    }
                    if has_key(new_entries, k) {
                        let w = position(new_entries, k);
                        assert(old_entries[w].0@ == k);
                    }
                }
                let target = old(self)@.insert(field@, count_of(old(self)@, field@) + 1);
                assert forall|k: Seq<char>| #[trigger] entries_map(entries@).contains_key(k) implies entries_map(entries@)[k] == target[k] by {
                    let w = position(new_entries, k);
                    if k == field@ {
                        lemma_entry_unique(new_entries, w, i as int);
                    } else {
                        let v = position(old_entries, k);
                        lemma_entry_unique(old_entries, w, v);
                    }
                }
                assert(entries_map(entries@) =~= target);
            }
        } else {
            proof {
                if i < old_entries.len() {
                    assert(old_entries[i as int].0@ != field@);
                    if key_bytes(old_entries[i as int]) == key@ {
                        lemma_encoding_injective(old_entries[i as int].0@, field@);
                    }
                    lemma_bytes_less_total(key_bytes(old_entries[i as int]), key@);
                }
                assert forall|j: int| i <= j < old_entries.len() implies bytes_less(key@, #[trigger] key_bytes(old_entries[j])) by {
                    if j > i {
                        lemma_bytes_less_transitive(key@, key_bytes(old_entries[i as int]), key_bytes(old_entries[j]));
                    }
                }
                assert forall|j: int| 0 <= j < old_entries.len() implies old_entries[j].0@ != field@ by {
                    if j < i {
                        assert(bytes_less(key_bytes(old_entries[j]), key@));
                    } else {
                        assert(bytes_less(key@, key_bytes(old_entries[j])));
                    }
                    if old_entries[j].0@ == field@ {
                        lemma_bytes_less_irreflexive(key@);
                    }
                }
                assert(count_of(old(self)@, field@) == 0);
            }
            entries.insert(i, (field.to_owned(), 1));
            proof {
                let new_entries = entries@;
                let fresh = new_entries[i as int];
                assert(key_bytes(fresh) == key@);
                assert forall|a: int, b: int| 0 <= a < b < new_entries.len() implies bytes_less(
                    #[trigger] key_bytes(new_entries[a]),
                    #[trigger] key_bytes(new_entries[b]),
                ) by {
                    if b < i {
                        assert(new_entries[a] == old_entries[a] && new_entries[b] == old_entries[b]);
                    } else if b == i {
                        assert(new_entries[a] == old_entries[a]);
                    } else if a == i {
                        assert(new_entries[b] == old_entries[b - 1]);
                    } else if a < i {
                        assert(new_entries[a] == old_entries[a] && new_entries[b] == old_entries[b - 1]);
                        lemma_bytes_less_transitive(key_bytes(old_entries[a]), key@, key_bytes(old_entries[b - 1]));
                    } else {
                        assert(new_entries[a] == old_entries[a - 1] && new_entries[b] == old_entries[b - 1]);
                    }
                }
                let target = old(self)@.insert(field@, 1);
                assert forall|k: Seq<char>| #[trigger] has_key(new_entries, k) == target.contains_key(k) by {
                    if has_key(old_entries, k) {
                        let w = position(old_entries, k);
                        if w < i {
                            assert(new_entries[w].0@ == k);
                        } else {
                            assert(new_entries[w + 1].0@ == k);
                        }
                    }
                    assert(new_entries[i as int].0@ == field@);
                    if has_key(new_entries, k) && k != field@ {
                        let w = position(new_entries, k);
                        if w < i {
                            assert(old_entries[w].0@ == k);
                        } else {
                            assert(old_entries[w - 1].0@ == k);
                        }
                    }
                }
                assert forall|k: Seq<char>| #[trigger] entries_map(entries@).contains_key(k) implies entries_map(entries@)[k] == target[k] by {
                    let w = position(new_entries, k);
                    if k == field@ {
                        lemma_entry_unique(new_entries, w, i as int);
                    } else {
                        let v = position(old_entries, k);
                        if w < i {
                            lemma_entry_unique(old_entries, w, v);
                        } else {
                            assert(w != i);
                            lemma_entry_unique(old_entries, w - 1, v);
                        }
                    }
                }
                assert(entries_map(entries@) =~= target);
                assert(strictly_sorted(entries@));
            }
        }
        self.entries = entries;
    }
}

} // verus!
