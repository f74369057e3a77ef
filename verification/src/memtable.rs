use vstd::prelude::*;

use crate::kinds::{EntryType, TableType};
use crate::order::{bytes_cmp, lemma_lex_trichotomy, lex_lt, BytesOrder};

verus! {

/// The mathematical image of a buffered record.
pub struct KVEntryView {
    pub key: Seq<u8>,
    pub value: Seq<u8>,
    pub timestamp: u64,
    pub entry_type: EntryType,
    pub deleted: bool,
}

/// One buffered record: key, value, the write's wall-clock timestamp, the
/// operation kind, and the tombstone flag derived from it.
#[derive(Debug)]
pub struct KVEntry {
    pub key: Vec<u8>,
    pub value: Vec<u8>,
    pub timestamp: u64,
    pub entry_type: EntryType,
    pub deleted: bool,
}

impl View for KVEntry {
    type V = KVEntryView;

    open spec fn view(&self) -> KVEntryView {
        KVEntryView {
            key: self.key@,
            value: self.value@,
            timestamp: self.timestamp,
            entry_type: self.entry_type,
            deleted: self.deleted,
        }
    }
}

impl KVEntryView {
    /// The bytes a record accounts for in the buffer: key, value, timestamp
    /// and kind byte.
    pub open spec fn spec_size(self) -> int {
        self.key.len() as int + self.value.len() as int + 9
    }
}

impl KVEntry {
    /// The bytes this record accounts for in the buffer.
    pub fn size(&self) -> (r: usize)
        requires
            self@.spec_size() <= usize::MAX,
        ensures
            r == self@.spec_size(),
    {
        self.key.len() + self.value.len() + 9
    }

    /// A field-for-field copy.
    pub fn duplicate(&self) -> (r: KVEntry)
        ensures
            r@ == self@,
    {
        let klen = self.key.len();
        let vlen = self.value.len();
        let mut key: Vec<u8> = Vec::new();
        crate::wire::push_bytes(&mut key, self.key.as_slice());
        let mut value: Vec<u8> = Vec::new();
        crate::wire::push_bytes(&mut value, self.value.as_slice());
        proof {
            assert(key@ =~= self.key@);
            assert(value@ =~= self.value@);
        }
        KVEntry {
            key,
            value,
            timestamp: self.timestamp,
            entry_type: self.entry_type,
            deleted: self.deleted,
        }
    }
}

/// The mathematical images of a run of records.
pub open spec fn views_of(s: Seq<KVEntry>) -> Seq<KVEntryView> {
    s.map_values(|e: KVEntry| e@)
}

/// The record stored for `key`, scanning from the front.
pub open spec fn seq_lookup(s: Seq<KVEntryView>, key: Seq<u8>) -> Option<KVEntryView>
    decreases s.len(),
{
    if s.len() == 0 {
        None
    } else if s[0].key == key {
        Some(s[0])
    } else {
        seq_lookup(s.skip(1), key)
    }
}

/// Keys strictly ascending over the whole sequence.
pub open spec fn sorted_by_key(s: Seq<KVEntryView>) -> bool {
    forall|i: int, j: int| 0 <= i < j < s.len() ==> lex_lt(s[i].key, s[j].key)
}

/// The bytes the records of `s` account for, summed.
pub open spec fn total_size(s: Seq<KVEntryView>) -> int
    decreases s.len(),
{
    if s.len() == 0 {
        0
    } else {
        s[0].spec_size() + total_size(s.skip(1))
    }
}

/// Every record accounts for at least nine bytes, so the sum is nonnegative.
pub proof fn lemma_total_size_nonneg(s: Seq<KVEntryView>)
    ensures
        total_size(s) >= 0,
    decreases s.len(),
{
    if s.len() > 0 {
        lemma_total_size_nonneg(s.skip(1));
    }
}

/// Splitting a sequence splits its size.
pub proof fn lemma_total_size_split(s: Seq<KVEntryView>, i: int)
    requires
        0 <= i <= s.len(),
    ensures
        total_size(s) == total_size(s.subrange(0, i)) + total_size(s.skip(i)),
    decreases i,
{
    if i == 0 {
        assert(s.subrange(0, 0) =~= Seq::<KVEntryView>::empty());
        assert(s.skip(0) =~= s);
    } else {
        lemma_total_size_split(s.skip(1), i - 1);
        assert(s.skip(1).subrange(0, i - 1) =~= s.subrange(0, i).skip(1));
        assert(s.skip(1).skip(i - 1) =~= s.skip(i));
        assert(total_size(s.subrange(0, i)) == s.subrange(0, i)[0].spec_size() + total_size(
            s.subrange(0, i).skip(1),
        ));
    }
}

/// A lookup that misses every key of a sorted tail stays None.
pub proof fn lemma_seq_lookup_none(s: Seq<KVEntryView>, key: Seq<u8>)
    requires
        forall|i: int| 0 <= i < s.len() ==> s[i].key != key,
    ensures
        seq_lookup(s, key) is None,
    decreases s.len(),
{
    if s.len() > 0 {
        lemma_seq_lookup_none(s.skip(1), key);
    }
}

/// In a sorted sequence, the lookup result is the entry at the matching
/// index, wherever a match exists.
pub proof fn lemma_seq_lookup_at(s: Seq<KVEntryView>, i: int)
    requires
        0 <= i < s.len(),
        forall|j: int| 0 <= j < i ==> s[j].key != s[i].key,
    ensures
        seq_lookup(s, s[i].key) == Some(s[i]),
    decreases i,
{
    if i > 0 {
        assert(forall|j: int| 0 <= j < i - 1 ==> s.skip(1)[j].key == s[j + 1].key);
        lemma_seq_lookup_at(s.skip(1), i - 1);
    }
}

/// The in-memory buffer: records held in ascending key order with their
/// accounted byte count, flushed once the count reaches the threshold.
#[derive(Debug)]
pub struct MemTable {
    pub entries: Vec<KVEntry>,
    pub max_size: usize,
    pub current_size: usize,
    pub table_type: TableType,
}

impl MemTable {
    /// The buffered records, in key order.
    pub open spec fn view_seq(self) -> Seq<KVEntryView> {
        self.entries@.map_values(|e: KVEntry| e@)
    }

    /// The buffer's internal shape: keys strictly ascending, the byte count
    /// equal to the records' summed sizes, and the tombstone flag derived
    /// from the operation kind.
    pub open spec fn wf(self) -> bool {
        &&& sorted_by_key(self.view_seq())
        &&& self.current_size == total_size(self.view_seq())
        &&& forall|i: int|
            0 <= i < self.view_seq().len() ==> (#[trigger] self.view_seq()[i]).deleted == (
            self.view_seq()[i].entry_type == EntryType::Delete)
    }

    /// The record stored for `key`, if any.
    pub open spec fn spec_get(self, key: Seq<u8>) -> Option<KVEntryView> {
        seq_lookup(self.view_seq(), key)
    }

    /// An empty buffer with the given flush threshold.
    pub fn new(max_size: usize, table_type: TableType) -> (r: MemTable)
        ensures
            r.wf(),
            r.view_seq() == Seq::<KVEntryView>::empty(),
            r.max_size == max_size,
            r.current_size == 0,
            r.table_type == table_type,
    {
        let r = MemTable { entries: Vec::new(), max_size, current_size: 0, table_type };
        proof {
            assert(r.view_seq() =~= Seq::<KVEntryView>::empty());
        }
        r
    }

    /// Stores a record for `key`, replacing any prior record for the same
    /// key and keeping the byte count in step.
    pub fn put(&mut self, key: Vec<u8>, value: Vec<u8>, entry_type: EntryType, timestamp: u64)
        requires
            old(self).wf(),
            total_size(old(self).view_seq()) + key@.len() + value@.len() + 9 <= usize::MAX,
        ensures
            final(self).wf(),
            final(self).view_seq() == ({
                let e = KVEntryView {
                    key: key@,
                    value: value@,
                    timestamp,
                    entry_type,
                    deleted: entry_type == EntryType::Delete,
                };
                spec_put_seq(old(self).view_seq(), e)
            }),
            final(self).max_size == old(self).max_size,
            final(self).table_type == old(self).table_type,
    {
        let ghost e = KVEntryView {
            key: key@,
            value: value@,
            timestamp,
            entry_type,
            deleted: entry_type == EntryType::Delete,
        };
        let ghost s0 = self.view_seq();
        let deleted = entry_type.to_u8() == 3;
        proof {
            assert(deleted == (entry_type == EntryType::Delete));
        }
        let n = self.entries.len();
        let mut i: usize = 0;
        while i < n
            invariant_except_break
                i <= n,
                n == self.entries@.len(),
                forall|j: int| 0 <= j < i ==> lex_lt(#[trigger] self.view_seq()[j].key, key@),
                self == old(self),
            ensures
                i <= n,
                n == self.entries@.len(),
                forall|j: int| 0 <= j < i ==> lex_lt(#[trigger] self.view_seq()[j].key, key@),
                self == old(self),
                i < n ==> !lex_lt(self.view_seq()[i as int].key, key@),
            decreases n - i,
        {
            match bytes_cmp(self.entries[i].key.as_slice(), key.as_slice()) {
                BytesOrder::Less => {
                    i = i + 1;
                },
                BytesOrder::Equal => {
                    proof {
                        lemma_lex_trichotomy(self.view_seq()[i as int].key, key@);
                    }
                    break ;
                },
                BytesOrder::Greater => {
                    proof {
                        lemma_lex_trichotomy(self.view_seq()[i as int].key, key@);
                    }
                    break ;
                },
            }
        }
        let new_size = key.len() + value.len() + 9;
        let entry = KVEntry { key, value, timestamp, entry_type, deleted };
        if i < n && bytes_cmp(self.entries[i].key.as_slice(), entry.key.as_slice())
            == BytesOrder::Equal {
            proof {
                lemma_total_size_split(s0, i as int);
                lemma_total_size_nonneg(s0.subrange(0, i as int));
                lemma_total_size_nonneg(s0.skip(i as int + 1));
                assert(total_size(s0.skip(i as int)) == s0[i as int].spec_size() + total_size(
                    s0.skip(i as int + 1),
                )) by {
                    assert(s0.skip(i as int).skip(1) =~= s0.skip(i as int + 1));
                }
            }
            let old_size = self.entries[i].size();
            self.current_size = self.current_size - old_size;
            self.current_size = self.current_size + new_size;
            self.entries[i] = entry;
            proof {
                lemma_put_at(s0, e, i as int, true);
                assert(self.view_seq() =~= s0.update(i as int, e));
                assert(s0.update(i as int, e) =~= s0.subrange(0, i as int) + seq![e] + s0.skip(
                    i as int + 1,
                ));
                lemma_put_preserves(s0, e, i as int, true);
                lemma_total_size_split(self.view_seq(), i as int);
                assert(self.view_seq().subrange(0, i as int) =~= s0.subrange(0, i as int));
                assert(self.view_seq().skip(i as int) =~= seq![e] + s0.skip(i as int + 1));
                assert(total_size(seq![e] + s0.skip(i as int + 1)) == e.spec_size() + total_size(
                    s0.skip(i as int + 1),
                )) by {
                    assert((seq![e] + s0.skip(i as int + 1)).skip(1) =~= s0.skip(i as int + 1));
                }
            }
        } else {
            proof {
                if i < n {
                    lemma_lex_trichotomy(s0[i as int].key, e.key);
                }
                lemma_total_size_split(s0, i as int);
                lemma_total_size_nonneg(s0.subrange(0, i as int));
                lemma_total_size_nonneg(s0.skip(i as int));
            }
            self.current_size = self.current_size + new_size;
            self.entries.insert(i, entry);
            proof {
                lemma_put_at(s0, e, i as int, false);
                assert(self.view_seq() =~= s0.insert(i as int, e));
                assert(s0.insert(i as int, e) =~= s0.subrange(0, i as int) + seq![e] + s0.skip(
                    i as int,
                ));
                lemma_put_preserves(s0, e, i as int, false);
                lemma_total_size_split(self.view_seq(), i as int);
                assert(self.view_seq().subrange(0, i as int) =~= s0.subrange(0, i as int));
                assert(self.view_seq().skip(i as int) =~= seq![e] + s0.skip(i as int));
                assert(total_size(seq![e] + s0.skip(i as int)) == e.spec_size() + total_size(
                    s0.skip(i as int),
                )) by {
                    assert((seq![e] + s0.skip(i as int)).skip(1) =~= s0.skip(i as int));
                }
            }
        }
    }

    /// The record stored for `key`, as a copy, or nothing.
    pub fn get(&self, key: &[u8]) -> (r: Option<KVEntry>)
        requires
            self.wf(),
        ensures
            match r {
                Some(e) => self.spec_get(key@) == Some(e@),
                None => self.spec_get(key@) is None,
            },
    {
        let n = self.entries.len();
        let mut i: usize = 0;
        while i < n
            invariant
                i <= n,
                n == self.entries@.len(),
                self.wf(),
                forall|j: int| 0 <= j < i ==> (#[trigger] self.view_seq()[j].key) != key@,
            decreases n - i,
        {
            match bytes_cmp(self.entries[i].key.as_slice(), key) {
                BytesOrder::Equal => {
                    proof {
                        lemma_seq_lookup_at(self.view_seq(), i as int);
                    }
                    return Some(self.entries[i].duplicate());
                },
                _ => {
                    proof {
                        lemma_lex_trichotomy(self.view_seq()[i as int].key, key@);
                    }
                    i = i + 1;
                },
            }
        }
        proof {
            lemma_seq_lookup_none(self.view_seq(), key@);
        }
        None
    }

    /// Whether the accounted bytes have reached the flush threshold.
    pub fn should_flush(&self) -> (r: bool)
        ensures
            r == (self.current_size >= self.max_size),
    {
        self.current_size >= self.max_size
    }

    /// Empties the buffer and resets the byte count.
    pub fn clear(&mut self)
        ensures
            final(self).wf(),
            final(self).view_seq() == Seq::<KVEntryView>::empty(),
            final(self).current_size == 0,
            final(self).max_size == old(self).max_size,
            final(self).table_type == old(self).table_type,
    {
        self.entries.clear();
        self.current_size = 0;
        proof {
            assert(self.view_seq() =~= Seq::<KVEntryView>::empty());
        }
    }
}

/// Storing a record in a sorted sequence: it lands at its key's place,
/// replacing a record with the same key.
pub open spec fn spec_put_seq(s: Seq<KVEntryView>, e: KVEntryView) -> Seq<KVEntryView>
    decreases s.len(),
{
    if s.len() == 0 {
        seq![e]
    } else if lex_lt(e.key, s[0].key) {
        seq![e] + s
    } else if e.key == s[0].key {
        seq![e] + s.skip(1)
    } else {
        seq![s[0]] + spec_put_seq(s.skip(1), e)
    }
}

/// Where the scan stopped is where `spec_put_seq` places the record.
proof fn lemma_put_at(s: Seq<KVEntryView>, e: KVEntryView, i: int, replace: bool)
    requires
        0 <= i <= s.len(),
        forall|j: int| 0 <= j < i ==> lex_lt(#[trigger] s[j].key, e.key),
        replace ==> i < s.len() && s[i].key == e.key,
        !replace ==> (i == s.len() || lex_lt(e.key, s[i].key)),
    ensures
        replace ==> spec_put_seq(s, e) == s.subrange(0, i) + seq![e] + s.skip(i + 1),
        !replace ==> spec_put_seq(s, e) == s.subrange(0, i) + seq![e] + s.skip(i),
    decreases i,
{
    if i == 0 {
        if replace {
            assert(!lex_lt(e.key, s[0].key)) by {
                lemma_lex_trichotomy(e.key, s[0].key);
            }
            assert(spec_put_seq(s, e) =~= s.subrange(0, 0) + seq![e] + s.skip(1));
        } else {
            if s.len() == 0 {
                assert(spec_put_seq(s, e) =~= s.subrange(0, 0) + seq![e] + s.skip(0));
            } else {
                assert(spec_put_seq(s, e) =~= s.subrange(0, 0) + seq![e] + s.skip(0));
            }
        }
    } else {
        assert(lex_lt(s[0].key, e.key));
        assert(!lex_lt(e.key, s[0].key) && e.key != s[0].key) by {
            lemma_lex_trichotomy(s[0].key, e.key);
        }
        assert(forall|j: int| 0 <= j < i - 1 ==> lex_lt(#[trigger] s.skip(1)[j].key, e.key));
        lemma_put_at(s.skip(1), e, i - 1, replace);
        if replace {
            assert(s.skip(1).subrange(0, i - 1) =~= s.subrange(0, i).skip(1));
            assert(s.skip(1).skip(i) =~= s.skip(i + 1));
            assert(seq![s[0]] + spec_put_seq(s.skip(1), e) =~= s.subrange(0, i) + seq![e] + s.skip(
                i + 1,
            ));
        } else {
            assert(s.skip(1).subrange(0, i - 1) =~= s.subrange(0, i).skip(1));
            assert(s.skip(1).skip(i - 1) =~= s.skip(i));
            assert(seq![s[0]] + spec_put_seq(s.skip(1), e) =~= s.subrange(0, i) + seq![e] + s.skip(
                i,
            ));
        }
    }
}

/// Storing a record keeps the sequence sorted and its tombstone flags
/// consistent.
proof fn lemma_put_preserves(s: Seq<KVEntryView>, e: KVEntryView, i: int, replace: bool)
    requires
        sorted_by_key(s),
        e.deleted == (e.entry_type == EntryType::Delete),
        0 <= i <= s.len(),
        forall|j: int| 0 <= j < i ==> lex_lt(#[trigger] s[j].key, e.key),
        replace ==> i < s.len() && s[i].key == e.key,
        !replace ==> (i == s.len() || lex_lt(e.key, s[i].key)),
    ensures
        replace ==> sorted_by_key(s.subrange(0, i) + seq![e] + s.skip(i + 1)),
        !replace ==> sorted_by_key(s.subrange(0, i) + seq![e] + s.skip(i)),
{
    if replace {
        let t = s.subrange(0, i) + seq![e] + s.skip(i + 1);
        assert forall|a: int, b: int| 0 <= a < b < t.len() implies lex_lt(t[a].key, t[b].key) by {
            if a < i && b == i {
            } else if a == i && b > i {
                assert(t[b] == s[b]);
                assert(lex_lt(s[i].key, s[b].key));
            } else if a < i && b > i {
                assert(t[a] == s[a] && t[b] == s[b]);
            } else {
            }
        }
    } else {
        let t = s.subrange(0, i) + seq![e] + s.skip(i);
        assert forall|a: int, b: int| 0 <= a < b < t.len() implies lex_lt(t[a].key, t[b].key) by {
            if a < i && b == i {
            } else if a == i && b > i {
                assert(t[b] == s[b - 1]);
                if b - 1 == i {
                } else {
                    assert(lex_lt(s[i].key, s[b - 1].key));
                    crate::order::lemma_lex_trans(e.key, s[i as int].key, s[b - 1].key);
                }
            } else if a < i && b > i {
                assert(t[a] == s[a] && t[b] == s[b - 1]);
                if a == b - 1 {
                    assert(lex_lt(s[a].key, e.key));
                    assert(i <= b - 1);
                    assert(a < i);
                } else {
                    assert(lex_lt(s[a].key, s[b - 1].key));
                }
            } else {
            }
        }
    }
}

/// After storing a record, its key looks it up; every other key sees what
/// it saw before.
pub proof fn lemma_put_seq_lookup(s: Seq<KVEntryView>, e: KVEntryView, k: Seq<u8>)
    ensures
        seq_lookup(spec_put_seq(s, e), e.key) == Some(e),
        k != e.key ==> seq_lookup(spec_put_seq(s, e), k) == seq_lookup(s, k),
    decreases s.len(),
{
    let t = spec_put_seq(s, e);
    if s.len() == 0 {
        assert(t == seq![e]);
        assert(t.skip(1) =~= Seq::<KVEntryView>::empty());
        assert(seq_lookup(t, e.key) == Some(e));
        if k != e.key {
            assert(seq_lookup(t, k) == seq_lookup(t.skip(1), k));
            assert(seq_lookup(t, k) is None);
        }
    } else if lex_lt(e.key, s[0].key) {
        assert(t == seq![e] + s);
        assert(t[0] == e);
        assert(t.skip(1) =~= s);
        assert(seq_lookup(t, e.key) == Some(e));
        if k != e.key {
            assert(seq_lookup(t, k) == seq_lookup(s, k));
        }
    } else if e.key == s[0].key {
        assert(t == seq![e] + s.skip(1));
        assert(t[0] == e);
        assert(t.skip(1) =~= s.skip(1));
        assert(seq_lookup(t, e.key) == Some(e));
        if k != e.key {
            assert(seq_lookup(t, k) == seq_lookup(s.skip(1), k));
            assert(seq_lookup(s, k) == seq_lookup(s.skip(1), k));
        }
    } else {
        assert(t == seq![s[0]] + spec_put_seq(s.skip(1), e));
        assert(t[0] == s[0]);
        assert(t.skip(1) =~= spec_put_seq(s.skip(1), e));
        lemma_put_seq_lookup(s.skip(1), e, k);
        assert(s[0].key != e.key);
        assert(seq_lookup(t, e.key) == seq_lookup(t.skip(1), e.key));
        if k != e.key {
            if k == s[0].key {
                assert(seq_lookup(t, k) == Some(s[0]));
                assert(seq_lookup(s, k) == Some(s[0]));
            } else {
                assert(seq_lookup(t, k) == seq_lookup(t.skip(1), k));
                assert(seq_lookup(s, k) == seq_lookup(s.skip(1), k));
            }
        }
    }
}

/// Storing a record grows the sequence by at most one slot.
pub proof fn lemma_put_seq_len(s: Seq<KVEntryView>, e: KVEntryView)
    ensures
        spec_put_seq(s, e).len() <= s.len() + 1,
        spec_put_seq(s, e).len() >= 1,
    decreases s.len(),
{
    if s.len() > 0 && !lex_lt(e.key, s[0].key) && e.key != s[0].key {
        lemma_put_seq_len(s.skip(1), e);
    }
}

/// Storing a record under a key not yet present grows the accounted bytes
/// by exactly the record's size — ten records of forty accounted bytes under
/// distinct keys reach four hundred, and so on.
pub proof fn lemma_put_seq_size_new_key(s: Seq<KVEntryView>, e: KVEntryView)
    requires
        seq_lookup(s, e.key) is None,
    ensures
        total_size(spec_put_seq(s, e)) == total_size(s) + e.spec_size(),
    decreases s.len(),
{
    let t = spec_put_seq(s, e);
    if s.len() == 0 {
        assert(t == seq![e]);
        assert(t.skip(1) =~= Seq::<KVEntryView>::empty());
        assert(total_size(t) == e.spec_size() + total_size(t.skip(1)));
    } else if lex_lt(e.key, s[0].key) {
        assert(t == seq![e] + s);
        assert(t[0] == e);
        assert(t.skip(1) =~= s);
        assert(total_size(t) == e.spec_size() + total_size(s));
    } else if e.key == s[0].key {
        assert(seq_lookup(s, e.key) == Some(s[0]));
    } else {
        assert(t == seq![s[0]] + spec_put_seq(s.skip(1), e));
        assert(t[0] == s[0]);
        assert(t.skip(1) =~= spec_put_seq(s.skip(1), e));
        assert(seq_lookup(s.skip(1), e.key) is None);
        lemma_put_seq_size_new_key(s.skip(1), e);
        assert(total_size(t) == t[0].spec_size() + total_size(t.skip(1)));
        assert(total_size(s) == s[0].spec_size() + total_size(s.skip(1)));
    }
}

/// Storing a record that is no tombstone into a run without tombstones
/// leaves a run without tombstones.
pub proof fn lemma_put_seq_all_live(s: Seq<KVEntryView>, e: KVEntryView)
    requires
        forall|i: int| 0 <= i < s.len() ==> !(#[trigger] s[i]).deleted,
        !e.deleted,
    ensures
        forall|i: int|
            0 <= i < spec_put_seq(s, e).len() ==> !(#[trigger] spec_put_seq(s, e)[i]).deleted,
    decreases s.len(),
{
    let t = spec_put_seq(s, e);
    if s.len() == 0 {
        assert(t == seq![e]);
    } else if lex_lt(e.key, s[0].key) {
        assert(t == seq![e] + s);
        assert(forall|i: int| 1 <= i < t.len() ==> t[i] == s[i - 1]);
    } else if e.key == s[0].key {
        assert(t == seq![e] + s.skip(1));
        assert(forall|i: int| 1 <= i < t.len() ==> t[i] == s[i]);
    } else {
        assert(forall|i: int| 0 <= i < s.skip(1).len() ==> s.skip(1)[i] == s[i + 1]);
        lemma_put_seq_all_live(s.skip(1), e);
        assert(t == seq![s[0]] + spec_put_seq(s.skip(1), e));
        assert(forall|i: int| 1 <= i < t.len() ==> t[i] == spec_put_seq(s.skip(1), e)[i - 1]);
    }
}

/// Storing a record grows the accounted bytes by at most the record's size.
pub proof fn lemma_put_seq_size(s: Seq<KVEntryView>, e: KVEntryView)
    ensures
        total_size(spec_put_seq(s, e)) <= total_size(s) + e.spec_size(),
        total_size(spec_put_seq(s, e)) >= 0,
    decreases s.len(),
{
    let t = spec_put_seq(s, e);
    lemma_total_size_nonneg(s);
    lemma_total_size_nonneg(t);
    if s.len() == 0 {
        assert(t == seq![e]);
        assert(t.skip(1) =~= Seq::<KVEntryView>::empty());
        assert(total_size(t) == e.spec_size() + total_size(t.skip(1)));
    } else if lex_lt(e.key, s[0].key) {
        assert(t == seq![e] + s);
        assert(t[0] == e);
        assert(t.skip(1) =~= s);
        assert(total_size(t) == e.spec_size() + total_size(s));
    } else if e.key == s[0].key {
        assert(t == seq![e] + s.skip(1));
        assert(t[0] == e);
        assert(t.skip(1) =~= s.skip(1));
        lemma_total_size_nonneg(s.skip(1));
        assert(total_size(t) == e.spec_size() + total_size(s.skip(1)));
        assert(total_size(s) == s[0].spec_size() + total_size(s.skip(1)));
    } else {
        assert(t == seq![s[0]] + spec_put_seq(s.skip(1), e));
        assert(t[0] == s[0]);
        assert(t.skip(1) =~= spec_put_seq(s.skip(1), e));
        lemma_put_seq_size(s.skip(1), e);
        assert(total_size(t) == t[0].spec_size() + total_size(t.skip(1)));
        assert(total_size(s) == s[0].spec_size() + total_size(s.skip(1)));
    }
}

} // verus!
