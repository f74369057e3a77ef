use vstd::prelude::*;

verus! {

/// A raw key as the heat tracker sees it.
#[derive(Debug, Clone, PartialEq, Eq, Hash)]
pub struct BDBKey {
    pub data: Vec<u8>,
}

/// A raw value as the heat tracker's callers carry it.
#[derive(Debug, Clone)]
pub struct BDBValue {
    pub data: Vec<u8>,
}

/// What kind of access bumps a key's heat, each by its own increment.
#[derive(Debug, Clone, Copy, PartialEq, Eq, Structural)]
pub enum QueryType {
    Read,
    Write,
    Delete,
    Compact,
}

impl QueryType {
    /// The heat increment of this access kind.
    pub open spec fn spec_increment(self) -> u32 {
        match self {
            QueryType::Read => 1,
            QueryType::Write => 2,
            QueryType::Delete => 3,
            QueryType::Compact => 4,
        }
    }

    pub fn increment(self) -> (r: u32)
        ensures
            r == self.spec_increment(),
    {
        match self {
            QueryType::Read => 1,
            QueryType::Write => 2,
            QueryType::Delete => 3,
            QueryType::Compact => 4,
        }
    }
}

/// One key's heat state: the decaying score, how often it was touched, and
/// when it was last and first seen.
#[derive(Debug, Clone, Copy, PartialEq, Eq, Structural)]
pub struct HeatEntry {
    pub heat: u32,
    pub access_count: u32,
    pub last_access: u64,
    pub created_at: u64,
}

/// The heat entry stored for `key`, scanning from the front.
pub open spec fn heat_lookup(s: Seq<(Seq<u8>, HeatEntry)>, key: Seq<u8>) -> Option<HeatEntry>
    decreases s.len(),
{
    if s.len() == 0 {
        None
    } else if s[0].0 == key {
        Some(s[0].1)
    } else {
        heat_lookup(s.skip(1), key)
    }
}

/// Pairwise distinct keys.
pub open spec fn heat_keys_unique(s: Seq<(Seq<u8>, HeatEntry)>) -> bool {
    forall|i: int, j: int| 0 <= i < j < s.len() ==> (#[trigger] s[i]).0 != (#[trigger] s[j]).0
}

/// Adding to a saturating counter.
pub open spec fn sat_add32(a: u32, b: u32) -> u32 {
    if a + b > u32::MAX {
        u32::MAX
    } else {
        (a + b) as u32
    }
}

/// The heat left after `cycles` one-minute decay steps, each keeping
/// ninety-five hundredths, rounded down.
pub open spec fn decayed(h: u32, cycles: nat) -> u32
    decreases cycles,
{
    if cycles == 0 {
        h
    } else {
        decayed(((h as int * 95) / 100) as u32, (cycles - 1) as nat)
    }
}

/// Heat that reached zero stays zero however long it decays.
pub proof fn lemma_decayed_zero(cycles: nat)
    ensures
        decayed(0, cycles) == 0,
    decreases cycles,
{
    if cycles > 0 {
        lemma_decayed_zero((cycles - 1) as nat);
    }
}

/// What one access does to the tracked entries: bump the key's entry, or
/// open a fresh one.
pub open spec fn spec_bump(
    s: Seq<(Seq<u8>, HeatEntry)>,
    key: Seq<u8>,
    inc: u32,
    now: u64,
) -> Seq<(Seq<u8>, HeatEntry)>
    decreases s.len(),
{
    if s.len() == 0 {
        seq![
            (
                key,
                HeatEntry {
                    heat: inc,
                    access_count: 1u32,
                    last_access: now,
                    created_at: now,
                },
            ),
        ]
    } else if s[0].0 == key {
        seq![
            (
                key,
                HeatEntry {
                    heat: sat_add32(s[0].1.heat, inc),
                    access_count: sat_add32(s[0].1.access_count, 1),
                    last_access: now,
                    created_at: s[0].1.created_at,
                },
            ),
        ] + s.skip(1)
    } else {
        seq![s[0]] + spec_bump(s.skip(1), key, inc, now)
    }
}

/// The entries that survive a decay sweep: those with any heat left.
pub open spec fn spec_sweep(s: Seq<(Seq<u8>, HeatEntry)>) -> Seq<(Seq<u8>, HeatEntry)>
    decreases s.len(),
{
    if s.len() == 0 {
        Seq::empty()
    } else if s[0].1.heat < 1 {
        spec_sweep(s.skip(1))
    } else {
        seq![s[0]] + spec_sweep(s.skip(1))
    }
}

/// Per-key access-frequency tracking with lazy decay: every access bumps the
/// key's heat by the access kind's increment, and once a minute a sweep
/// drops entries whose heat has reached zero.
#[derive(Debug)]
pub struct HeatTracker {
    pub max_entries: usize,
    pub hot_threshold: u32,
    pub last_decay_time: u64,
    pub heat_entries: Vec<(Vec<u8>, HeatEntry)>,
}

impl HeatTracker {
    /// The tracked entries as key-to-state pairs.
    pub open spec fn view_seq(self) -> Seq<(Seq<u8>, HeatEntry)> {
        self.heat_entries@.map_values(|p: (Vec<u8>, HeatEntry)| (p.0@, p.1))
    }

    /// The tracker's internal shape: one entry per key.
    pub open spec fn wf(self) -> bool {
        heat_keys_unique(self.view_seq())
    }

    /// An empty tracker whose decay clock starts at the caller's wall-clock
    /// time.
    pub fn new(max_entries: usize, now_secs: u64) -> (r: HeatTracker)
        ensures
            r.wf(),
            r.view_seq() == Seq::<(Seq<u8>, HeatEntry)>::empty(),
            r.max_entries == max_entries,
            r.hot_threshold == 10,
            r.last_decay_time == now_secs,
    {
        let r = HeatTracker {
            max_entries,
            hot_threshold: 10,
            last_decay_time: now_secs,
            heat_entries: Vec::new(),
        };
        proof {
            assert(r.view_seq() =~= Seq::<(Seq<u8>, HeatEntry)>::empty());
        }
        r
    }

    /// Sweeps cold entries once at least a minute has passed since the last
    /// sweep, then bumps the key's entry by the access kind's increment,
    /// opening a fresh entry for a key not yet tracked.
    pub fn record_access(&mut self, key: &[u8], query_type: QueryType, now_secs: u64)
        requires
            old(self).wf(),
        ensures
            final(self).wf(),
            final(self).max_entries == old(self).max_entries,
            final(self).hot_threshold == old(self).hot_threshold,
            ({
                let swept = if now_secs >= old(self).last_decay_time + 60 {
                    spec_sweep(old(self).view_seq())
                } else {
                    old(self).view_seq()
                };
                &&& final(self).last_decay_time == if now_secs >= old(self).last_decay_time
                    + 60 {
                    now_secs
                } else {
                    old(self).last_decay_time
                }
                &&& final(self).view_seq() == spec_bump(
                    swept,
                    key@,
                    query_type.spec_increment(),
                    now_secs,
                )
            }),
    {
        self.apply_decay(now_secs);
        let inc = query_type.increment();
        let ghost swept = self.view_seq();
        let n = self.heat_entries.len();
        let mut i: usize = 0;
        while i < n
            invariant
                i <= n,
                n == self.heat_entries@.len(),
                swept == self.view_seq(),
                heat_keys_unique(swept),
                inc == query_type.spec_increment(),
                self.max_entries == old(self).max_entries,
                self.hot_threshold == old(self).hot_threshold,
                swept == (if now_secs >= old(self).last_decay_time + 60 {
                    spec_sweep(old(self).view_seq())
                } else {
                    old(self).view_seq()
                }),
                self.last_decay_time == (if now_secs >= old(self).last_decay_time + 60 {
                    now_secs
                } else {
                    old(self).last_decay_time
                }),
                forall|j: int| 0 <= j < i ==> (#[trigger] swept[j]).0 != key@,
            decreases n - i,
        {
            if crate::wire::bytes_eq(self.heat_entries[i].0.as_slice(), key) {
                proof {
                    assert(swept[i as int].0 == key@);
                }
                let old_entry = self.heat_entries[i].1;
                let heat = if old_entry.heat as u64 + inc as u64 > u32::MAX as u64 {
                    u32::MAX
                } else {
                    old_entry.heat + inc
                };
                let access_count = if old_entry.access_count as u64 + 1 > u32::MAX as u64 {
                    u32::MAX
                } else {
                    old_entry.access_count + 1
                };
                let key_copy = crate::wire::read_bytes(key, 0, key.len());
                proof {
                    assert(key_copy@ =~= key@);
                }
                let updated = HeatEntry {
                    heat,
                    access_count,
                    last_access: now_secs,
                    created_at: old_entry.created_at,
                };
                self.heat_entries[i] = (key_copy, updated);
                proof {
                    lemma_bump_at(swept, key@, inc, now_secs, i as int);
                    assert(self.view_seq() =~= swept.subrange(0, i as int) + seq![
                        (
                            key@,
                            HeatEntry {
                                heat: sat_add32(swept[i as int].1.heat, inc),
                                access_count: sat_add32(swept[i as int].1.access_count, 1),
                                last_access: now_secs,
                                created_at: swept[i as int].1.created_at,
                            },
                        ),
                    ] + swept.skip(i as int + 1));
                    lemma_bump_unique(swept, key@, inc, now_secs);
                }
                return ;
            }
            i = i + 1;
        }
        let key_copy = crate::wire::read_bytes(key, 0, key.len());
        proof {
            assert(key_copy@ =~= key@);
        }
        let fresh = HeatEntry {
            heat: inc,
            access_count: 1,
            last_access: now_secs,
            created_at: now_secs,
        };
        self.heat_entries.push((key_copy, fresh));
        proof {
            lemma_bump_append(swept, key@, inc, now_secs);
            assert(self.view_seq() =~= swept + seq![(key@, fresh)]);
            lemma_bump_unique(swept, key@, inc, now_secs);
        }
    }

    /// The key's stored heat scaled down by one decay step per full minute
    /// since its last access; an untracked key reads zero.
    pub fn get_heat(&self, key: &[u8], now_secs: u64) -> (r: u32)
        requires
            self.wf(),
        ensures
            r == match heat_lookup(self.view_seq(), key@) {
                None => 0u32,
                Some(e) => decayed(
                    e.heat,
                    ((if now_secs >= e.last_access {
                        now_secs - e.last_access
                    } else {
                        0
                    }) / 60) as nat,
                ),
            },
    {
        let n = self.heat_entries.len();
        let mut i: usize = 0;
        while i < n
            invariant
                i <= n,
                n == self.heat_entries@.len(),
                self.wf(),
                forall|j: int| 0 <= j < i ==> (#[trigger] self.view_seq()[j]).0 != key@,
            decreases n - i,
        {
            if crate::wire::bytes_eq(self.heat_entries[i].0.as_slice(), key) {
                let e = self.heat_entries[i].1;
                proof {
                    lemma_heat_lookup_at(self.view_seq(), i as int);
                }
                let age = if now_secs >= e.last_access {
                    now_secs - e.last_access
                } else {
                    0
                };
                let total_cycles = age / 60;
                let mut h: u32 = e.heat;
                let mut c: u64 = total_cycles;
                while c > 0
                    invariant
                        decayed(e.heat, total_cycles as nat) == decayed(h, c as nat),
                        heat_lookup(self.view_seq(), key@) == Some(e),
                        total_cycles == (if now_secs >= e.last_access {
                            now_secs - e.last_access
                        } else {
                            0
                        }) / 60,
                    decreases c,
                {
                    if h == 0 {
                        proof {
                            lemma_decayed_zero(c as nat);
                        }
                        return 0;
                    }
                    h = ((h as u64 * 95) / 100) as u32;
                    c = c - 1;
                }
                return h;
            }
            i = i + 1;
        }
        proof {
            lemma_heat_lookup_none(self.view_seq(), key@);
        }
        0
    }

    /// Once at least a minute has passed since the last sweep, records the
    /// sweep time and drops every entry whose heat has reached zero.
    fn apply_decay(&mut self, now_secs: u64)
        requires
            old(self).wf(),
        ensures
            final(self).wf(),
            final(self).max_entries == old(self).max_entries,
            final(self).hot_threshold == old(self).hot_threshold,
            now_secs >= old(self).last_decay_time + 60 ==> final(self).last_decay_time == now_secs
                && final(self).view_seq() == spec_sweep(old(self).view_seq()),
            now_secs < old(self).last_decay_time + 60 ==> *final(self) == *old(self),
    {
        let elapsed = if now_secs >= self.last_decay_time {
            now_secs - self.last_decay_time
        } else {
            0
        };
        if now_secs < self.last_decay_time || elapsed < 60 {
            return ;
        }
        self.last_decay_time = now_secs;
        let ghost s0 = self.view_seq();
        let n = self.heat_entries.len();
        let mut kept: Vec<(Vec<u8>, HeatEntry)> = Vec::new();
        let mut i: usize = 0;
        proof {
            assert(s0.skip(0) =~= s0);
        }
        while i < n
            invariant
                i <= n,
                n == self.heat_entries@.len(),
                s0 == self.view_seq(),
                kept@.map_values(|p: (Vec<u8>, HeatEntry)| (p.0@, p.1)) + spec_sweep(
                    s0.skip(i as int),
                ) == spec_sweep(s0),
            decreases n - i,
        {
            proof {
                assert(s0.skip(i as int)[0] == s0[i as int]);
                assert(s0.skip(i as int).skip(1) =~= s0.skip(i as int + 1));
            }
            let keep = self.heat_entries[i].1.heat >= 1;
            if keep {
                let key_copy = crate::wire::read_bytes(
                    self.heat_entries[i].0.as_slice(),
                    0,
                    self.heat_entries[i].0.len(),
                );
                proof {
                    assert(key_copy@ =~= s0[i as int].0);
                }
                kept.push((key_copy, self.heat_entries[i].1));
                proof {
                    assert(kept@.map_values(|p: (Vec<u8>, HeatEntry)| (p.0@, p.1)) + spec_sweep(
                        s0.skip(i as int + 1),
                    ) =~= spec_sweep(s0));
                }
            } else {
                proof {
                    assert(kept@.map_values(|p: (Vec<u8>, HeatEntry)| (p.0@, p.1)) + spec_sweep(
                        s0.skip(i as int + 1),
                    ) =~= spec_sweep(s0));
                }
            }
            i = i + 1;
        }
        self.heat_entries = kept;
        proof {
            assert(s0.skip(n as int) =~= Seq::<(Seq<u8>, HeatEntry)>::empty());
            assert(self.view_seq() =~= spec_sweep(s0));
            lemma_sweep_unique(s0);
        }
    }
}

/// Where the scan stopped is where the bump lands.
proof fn lemma_bump_at(s: Seq<(Seq<u8>, HeatEntry)>, key: Seq<u8>, inc: u32, now: u64, i: int)
    requires
        0 <= i < s.len(),
        s[i].0 == key,
        forall|j: int| 0 <= j < i ==> (#[trigger] s[j]).0 != key,
    ensures
        spec_bump(s, key, inc, now) == s.subrange(0, i) + seq![
            (
                key,
                HeatEntry {
                    heat: sat_add32(s[i].1.heat, inc),
                    access_count: sat_add32(s[i].1.access_count, 1),
                    last_access: now,
                    created_at: s[i].1.created_at,
                },
            ),
        ] + s.skip(i + 1),
    decreases i,
{
    if i == 0 {
        assert(spec_bump(s, key, inc, now) =~= s.subrange(0, 0) + seq![
            (
                key,
                HeatEntry {
                    heat: sat_add32(s[0].1.heat, inc),
                    access_count: sat_add32(s[0].1.access_count, 1),
                    last_access: now,
                    created_at: s[0].1.created_at,
                },
            ),
        ] + s.skip(1));
    } else {
        assert(forall|j: int| 0 <= j < i - 1 ==> (#[trigger] s.skip(1)[j]).0 != key);
        assert(s.skip(1)[i - 1] == s[i]);
        lemma_bump_at(s.skip(1), key, inc, now, i - 1);
        assert(s.skip(1).subrange(0, i - 1) =~= s.subrange(0, i).skip(1));
        assert(s.skip(1).skip(i) =~= s.skip(i + 1));
        assert(spec_bump(s, key, inc, now) =~= s.subrange(0, i) + seq![
            (
                key,
                HeatEntry {
                    heat: sat_add32(s[i].1.heat, inc),
                    access_count: sat_add32(s[i].1.access_count, 1),
                    last_access: now,
                    created_at: s[i].1.created_at,
                },
            ),
        ] + s.skip(i + 1));
    }
}

/// A key seen nowhere lands at the end.
proof fn lemma_bump_append(s: Seq<(Seq<u8>, HeatEntry)>, key: Seq<u8>, inc: u32, now: u64)
    requires
        forall|j: int| 0 <= j < s.len() ==> (#[trigger] s[j]).0 != key,
    ensures
        spec_bump(s, key, inc, now) == s + seq![
            (
                key,
                HeatEntry { heat: inc, access_count: 1u32, last_access: now, created_at: now },
            ),
        ],
    decreases s.len(),
{
    if s.len() == 0 {
        assert(spec_bump(s, key, inc, now) =~= s + seq![
            (
                key,
                HeatEntry { heat: inc, access_count: 1u32, last_access: now, created_at: now },
            ),
        ]);
    } else {
        assert(forall|j: int| 0 <= j < s.len() - 1 ==> (#[trigger] s.skip(1)[j]).0 != key);
        lemma_bump_append(s.skip(1), key, inc, now);
        assert(spec_bump(s, key, inc, now) =~= s + seq![
            (
                key,
                HeatEntry { heat: inc, access_count: 1u32, last_access: now, created_at: now },
            ),
        ]);
    }
}

/// Bumping keeps keys pairwise distinct.
proof fn lemma_bump_unique(s: Seq<(Seq<u8>, HeatEntry)>, key: Seq<u8>, inc: u32, now: u64)
    requires
        heat_keys_unique(s),
    ensures
        heat_keys_unique(spec_bump(s, key, inc, now)),
    decreases s.len(),
{
    let t = spec_bump(s, key, inc, now);
    if s.len() == 0 {
    } else if s[0].0 == key {
        assert(t[0].0 == key);
        assert(t.skip(1) =~= s.skip(1));
        assert forall|a: int, b: int| 0 <= a < b < t.len() implies (#[trigger] t[a]).0 != (
        #[trigger] t[b]).0 by {
            if a == 0 {
                assert(t[b] == s[b]);
            } else {
                assert(t[a] == s[a] && t[b] == s[b]);
            }
        }
    } else {
        assert(forall|a: int, b: int|
            0 <= a < b < s.skip(1).len() ==> (#[trigger] s.skip(1)[a]).0 != (
            #[trigger] s.skip(1)[b]).0);
        lemma_bump_unique(s.skip(1), key, inc, now);
        assert(t[0] == s[0]);
        assert(t.skip(1) =~= spec_bump(s.skip(1), key, inc, now));
        assert forall|a: int, b: int| 0 <= a < b < t.len() implies (#[trigger] t[a]).0 != (
        #[trigger] t[b]).0 by {
            if a == 0 {
                lemma_bump_membership(s.skip(1), key, inc, now, b - 1);
            } else {
                assert(t[a] == t.skip(1)[a - 1] && t[b] == t.skip(1)[b - 1]);
            }
        }
    }
}

/// Every bumped entry's key is either the bumped key or one already present.
proof fn lemma_bump_membership(
    s: Seq<(Seq<u8>, HeatEntry)>,
    key: Seq<u8>,
    inc: u32,
    now: u64,
    j: int,
)
    requires
        0 <= j < spec_bump(s, key, inc, now).len(),
    ensures
        spec_bump(s, key, inc, now)[j].0 == key || exists|i: int|
            0 <= i < s.len() && (#[trigger] s[i]).0 == spec_bump(s, key, inc, now)[j].0,
    decreases s.len(),
{
    let t = spec_bump(s, key, inc, now);
    if s.len() == 0 {
    } else if s[0].0 == key {
        if j > 0 {
            assert(t[j] == s[j]);
        }
    } else {
        if j == 0 {
            assert(t[0] == s[0]);
        } else {
            assert(t.skip(1) =~= spec_bump(s.skip(1), key, inc, now));
            lemma_bump_membership(s.skip(1), key, inc, now, j - 1);
            if t[j].0 != key {
                let i0 = choose|i: int|
                    0 <= i < s.skip(1).len() && (#[trigger] s.skip(1)[i]).0 == spec_bump(
                        s.skip(1),
                        key,
                        inc,
                        now,
                    )[j - 1].0;
                assert(s[i0 + 1].0 == t[j].0);
            }
        }
    }
}

/// Sweeping keeps keys pairwise distinct.
proof fn lemma_sweep_unique(s: Seq<(Seq<u8>, HeatEntry)>)
    requires
        heat_keys_unique(s),
    ensures
        heat_keys_unique(spec_sweep(s)),
    decreases s.len(),
{
    if s.len() > 0 {
        assert(forall|a: int, b: int|
            0 <= a < b < s.skip(1).len() ==> (#[trigger] s.skip(1)[a]).0 != (
            #[trigger] s.skip(1)[b]).0);
        lemma_sweep_unique(s.skip(1));
        if s[0].1.heat >= 1 {
            let t = seq![s[0]] + spec_sweep(s.skip(1));
            assert forall|a: int, b: int| 0 <= a < b < t.len() implies (#[trigger] t[a]).0 != (
            #[trigger] t[b]).0 by {
                if a == 0 {
                    lemma_sweep_membership(s.skip(1), b - 1);
                    let i0 = choose|i: int|
                        0 <= i < s.skip(1).len() && (#[trigger] s.skip(1)[i]) == spec_sweep(
                            s.skip(1),
                        )[b - 1];
                    assert(s[i0 + 1] == t[b]);
                } else {
                    assert(t[a] == spec_sweep(s.skip(1))[a - 1]);
                    assert(t[b] == spec_sweep(s.skip(1))[b - 1]);
                }
            }
        }
    }
}

/// Every surviving entry is one of the run's entries.
proof fn lemma_sweep_membership(s: Seq<(Seq<u8>, HeatEntry)>, j: int)
    requires
        0 <= j < spec_sweep(s).len(),
    ensures
        exists|i: int| 0 <= i < s.len() && (#[trigger] s[i]) == spec_sweep(s)[j],
    decreases s.len(),
{
    if s.len() > 0 {
        if s[0].1.heat < 1 {
            lemma_sweep_membership(s.skip(1), j);
            let i0 = choose|i: int|
                0 <= i < s.skip(1).len() && (#[trigger] s.skip(1)[i]) == spec_sweep(s.skip(1))[j];
            assert(s[i0 + 1] == spec_sweep(s)[j]);
        } else {
            if j == 0 {
                assert(s[0] == spec_sweep(s)[0]);
            } else {
                lemma_sweep_membership(s.skip(1), j - 1);
                let i0 = choose|i: int|
                    0 <= i < s.skip(1).len() && (#[trigger] s.skip(1)[i]) == spec_sweep(
                        s.skip(1),
                    )[j - 1];
                assert(s[i0 + 1] == spec_sweep(s)[j]);
            }
        }
    }
}

/// A lookup that misses every key stays empty.
proof fn lemma_heat_lookup_none(s: Seq<(Seq<u8>, HeatEntry)>, key: Seq<u8>)
    requires
        forall|i: int| 0 <= i < s.len() ==> (#[trigger] s[i]).0 != key,
    ensures
        heat_lookup(s, key) is None,
    decreases s.len(),
{
    if s.len() > 0 {
        lemma_heat_lookup_none(s.skip(1), key);
    }
}

/// The lookup result is the entry at the matching slot when nothing before
/// it matches.
proof fn lemma_heat_lookup_at(s: Seq<(Seq<u8>, HeatEntry)>, i: int)
    requires
        0 <= i < s.len(),
        forall|j: int| 0 <= j < i ==> (#[trigger] s[j]).0 != s[i].0,
    ensures
        heat_lookup(s, s[i].0) == Some(s[i].1),
    decreases i,
{
    if i > 0 {
        assert(forall|j: int| 0 <= j < i - 1 ==> (#[trigger] s.skip(1)[j]).0 == s[j + 1].0);
        lemma_heat_lookup_at(s.skip(1), i - 1);
    }
}

} // verus!
