//! Per-topic state: the message record, the topic's settings, the compaction
//! table, and the controller that owns the retained buffer and decides what
//! is forwarded to live subscribers.
//!
//! All instants are broker-stamped milliseconds on one monotonic clock. The
//! live fan-out channel itself is transport plumbing and lives outside; the
//! controller decides what enters it ([`TopicController::publish`] returns
//! the message to fan out, or nothing for a suppressed duplicate) and hands
//! new subscribers their replay snapshot ([`TopicController::subscribe`]).

use vstd::prelude::*;

verus! {

/// Capacity of a topic's live fan-out channel when none is asked for.
pub const DEFAULT_BUFFER_SIZE: usize = 1000;

/// A message as a topic stores it. Immutable after construction.
#[derive(Debug, PartialEq, Eq)]
pub struct Message {
    /// Dedup key consulted by compaction; a message without a key is never a
    /// duplicate.
    pub key: Option<String>,
    /// Payload bytes, carried through untouched.
    pub payload: Vec<u8>,
    /// Broker-stamped arrival instant, in milliseconds.
    pub received_at: u64,
    /// Set at publish time to `received_at + retention_ttl` when the owning
    /// topic retains messages; a message without it never expires.
    pub expires_at: Option<u64>,
}

/// The mathematical content of a [`Message`]: its strings and bytes as
/// sequences.
pub struct MessageView {
    pub key: Option<Seq<char>>,
    pub payload: Seq<u8>,
    pub received_at: u64,
    pub expires_at: Option<u64>,
}

impl View for Message {
    type V = MessageView;

    open spec fn view(&self) -> MessageView {
        MessageView {
            key: self.key.deep_view(),
            payload: self.payload@,
            received_at: self.received_at,
            expires_at: self.expires_at,
        }
    }
}

impl Clone for Message {
    /// Copies every field; the clone has the same view.
    fn clone(&self) -> (res: Self)
        ensures
            res@ == self@,
    {
        let key = match &self.key {
            None => None,
            Some(k) => Some(k.clone()),
        };
        let res = Message {
            key,
            payload: vstd::slice::slice_to_vec(self.payload.as_slice()),
            received_at: self.received_at,
            expires_at: self.expires_at,
        };
        assert(res@.key == self@.key);
        res
    }
}

/// The views of a sequence of messages.
pub open spec fn msg_views(s: Seq<Message>) -> Seq<MessageView> {
    s.map_values(|m: Message| m@)
}

/// A topic's fixed configuration. `None` means the policy is disabled.
#[derive(Clone, Copy, Debug)]
pub struct TopicSettings {
    /// How long a message stays replayable for late subscribers, in
    /// milliseconds.
    pub retention_ttl: Option<u64>,
    /// The sliding interval during which a repeated key is suppressed, in
    /// milliseconds.
    pub compaction_window: Option<u64>,
    /// Capacity of the live fan-out channel.
    pub buffer_size: usize,
}

impl TopicSettings {
    /// Normalizes raw settings: a zero duration disables the policy, and a
    /// zero buffer size falls back to the default capacity.
    pub fn new(retention_ttl: u64, compaction_window: u64, buffer_size: usize) -> (settings:
        TopicSettings)
        ensures
            settings == spec_settings(retention_ttl, compaction_window, buffer_size),
    {
        let retention_ttl = if retention_ttl == 0 {
            None
        } else {
            Some(retention_ttl)
        };
        let compaction_window = if compaction_window == 0 {
            None
        } else {
            Some(compaction_window)
        };
        let buffer_size = if buffer_size == 0 {
            DEFAULT_BUFFER_SIZE
        } else {
            buffer_size
        };
        TopicSettings { retention_ttl, compaction_window, buffer_size }
    }
}

/// What [`TopicSettings::new`] builds from raw numbers: zero means disabled.
pub open spec fn spec_settings(
    retention_ttl: u64,
    compaction_window: u64,
    buffer_size: usize,
) -> TopicSettings {
    TopicSettings {
        retention_ttl: if retention_ttl == 0 {
            None
        } else {
            Some(retention_ttl)
        },
        compaction_window: if compaction_window == 0 {
            None
        } else {
            Some(compaction_window)
        },
        buffer_size: if buffer_size == 0 {
            DEFAULT_BUFFER_SIZE
        } else {
            buffer_size
        },
    }
}

/// `received_at + ttl`, stopping at the largest representable instant.
pub open spec fn spec_expires(received_at: u64, ttl: u64) -> u64 {
    if received_at + ttl > u64::MAX {
        u64::MAX
    } else {
        (received_at + ttl) as u64
    }
}

/// The message a publish at `received_at` constructs under retention `ttl`.
pub open spec fn spec_msg(
    key: Option<Seq<char>>,
    payload: Seq<u8>,
    received_at: u64,
    ttl: Option<u64>,
) -> MessageView {
    MessageView {
        key,
        payload,
        received_at,
        expires_at: match ttl {
            None => None,
            Some(t) => Some(spec_expires(received_at, t)),
        },
    }
}

/// A message still deliverable at `now`: it has no expiry, or its expiry is
/// still ahead.
pub open spec fn alive_at(m: MessageView, now: u64) -> bool {
    match m.expires_at {
        None => true,
        Some(e) => e > now,
    }
}

/// The entries of the compaction table, each a key with the instant of its
/// last forwarded publish.
pub open spec fn pair_views(s: Seq<(String, u64)>) -> Seq<(Seq<char>, u64)> {
    s.map_values(|p: (String, u64)| (p.0@, p.1))
}

/// No key occurs twice.
pub open spec fn unique_keys(m: Seq<(Seq<char>, u64)>) -> bool {
    forall|i: int, j: int| 0 <= i < j < m.len() ==> m[i].0 != m[j].0
}

/// The instant stored under `k`, scanning from the front.
pub open spec fn spec_lookup(m: Seq<(Seq<char>, u64)>, k: Seq<char>) -> Option<u64>
    decreases m.len(),
{
    if m.len() == 0 {
        None
    } else if m[0].0 == k {
        Some(m[0].1)
    } else {
        spec_lookup(m.drop_first(), k)
    }
}

/// The table with `k` now mapped to `t`: updated in place where `k` already
/// stands, appended otherwise.
pub open spec fn spec_upsert(m: Seq<(Seq<char>, u64)>, k: Seq<char>, t: u64) -> Seq<
    (Seq<char>, u64),
>
    decreases m.len(),
{
    if m.len() == 0 {
        seq![(k, t)]
    } else if m[0].0 == k {
        seq![(k, t)] + m.drop_first()
    } else {
        seq![m[0]] + spec_upsert(m.drop_first(), k, t)
    }
}

/// The entries still inside the compaction window at `now`, in their stored
/// order: exactly those whose instant is at most a window old.
pub open spec fn spec_prune_compaction(m: Seq<(Seq<char>, u64)>, window: u64, now: u64) -> Seq<
    (Seq<char>, u64),
>
    decreases m.len(),
{
    if m.len() == 0 {
        m
    } else {
        let rest = spec_prune_compaction(m.drop_first(), window, now);
        if m[0].1 + window >= now {
            seq![m[0]] + rest
        } else {
            rest
        }
    }
}

/// The retained messages still deliverable at `now`, in their stored order:
/// exactly those that [`alive_at`] admits.
pub open spec fn spec_prune_retained(s: Seq<MessageView>, now: u64) -> Seq<MessageView>
    decreases s.len(),
{
    if s.len() == 0 {
        s
    } else {
        let rest = spec_prune_retained(s.drop_first(), now);
        if alive_at(s[0], now) {
            seq![s[0]] + rest
        } else {
            rest
        }
    }
}

/// Messages ordered by their arrival instants.
pub open spec fn sorted_by_received(s: Seq<MessageView>) -> bool {
    forall|i: int, j: int| 0 <= i <= j < s.len() ==> s[i].received_at <= s[j].received_at
}

/// Whether a publish bearing `key` at `now` is a suppressed duplicate against
/// table `m` under window `w`: the key is present and its stored instant is
/// less than a window ago. The elapsed time saturates at zero, as the
/// monotonic clock's difference does.
pub open spec fn spec_is_dup(m: Seq<(Seq<char>, u64)>, key: Option<Seq<char>>, w: u64, now: u64) -> bool {
    match key {
        None => false,
        Some(k) => match spec_lookup(m, k) {
            None => false,
            Some(t) => (if now >= t {
                now - t
            } else {
                0
            }) < w,
        },
    }
}

/// Scanning past a prefix free of `k` does not change what a lookup finds.
proof fn lemma_lookup_skip(m: Seq<(Seq<char>, u64)>, k: Seq<char>, i: int)
    requires
        0 <= i <= m.len(),
        forall|j: int| 0 <= j < i ==> m[j].0 != k,
    ensures
        spec_lookup(m, k) == spec_lookup(m.skip(i), k),
    decreases i,
{
    if i == 0 {
        assert(m.skip(0) =~= m);
    } else {
        assert(m.drop_first().skip(i - 1) =~= m.skip(i));
        lemma_lookup_skip(m.drop_first(), k, i - 1);
    }
}

/// A lookup that scanned the whole table without a match finds nothing.
proof fn lemma_lookup_absent(m: Seq<(Seq<char>, u64)>, k: Seq<char>)
    requires
        forall|j: int| 0 <= j < m.len() ==> m[j].0 != k,
    ensures
        spec_lookup(m, k) == None::<u64>,
{
    lemma_lookup_skip(m, k, m.len() as int);
}

/// When `k` first stands at position `i`, the lookup finds that entry.
proof fn lemma_lookup_at(m: Seq<(Seq<char>, u64)>, k: Seq<char>, i: int)
    requires
        0 <= i < m.len(),
        m[i].0 == k,
        forall|j: int| 0 <= j < i ==> m[j].0 != k,
    ensures
        spec_lookup(m, k) == Some(m[i].1),
{
    lemma_lookup_skip(m, k, i);
    assert(m.skip(i)[0] == m[i]);
}

/// When `k` first stands at position `i`, the upsert replaces that entry.
proof fn lemma_upsert_at(m: Seq<(Seq<char>, u64)>, k: Seq<char>, t: u64, i: int)
    requires
        0 <= i < m.len(),
        m[i].0 == k,
        forall|j: int| 0 <= j < i ==> m[j].0 != k,
    ensures
        spec_upsert(m, k, t) == m.update(i, (k, t)),
    decreases i,
{
    if i == 0 {
        assert(spec_upsert(m, k, t) =~= m.update(0, (k, t)));
    } else {
        lemma_upsert_at(m.drop_first(), k, t, i - 1);
        assert(seq![m[0]] + m.drop_first().update(i - 1, (k, t)) =~= m.update(i, (k, t)));
    }
}

/// When `k` stands nowhere in the table, the upsert appends it.
proof fn lemma_upsert_absent(m: Seq<(Seq<char>, u64)>, k: Seq<char>, t: u64)
    requires
        forall|j: int| 0 <= j < m.len() ==> m[j].0 != k,
    ensures
        spec_upsert(m, k, t) == m.push((k, t)),
    decreases m.len(),
{
    if m.len() == 0 {
        assert(spec_upsert(m, k, t) =~= m.push((k, t)));
    } else {
        lemma_upsert_absent(m.drop_first(), k, t);
        assert(seq![m[0]] + m.drop_first().push((k, t)) =~= m.push((k, t)));
    }
}

/// What an upsert does to the rest of the table: `k` now maps to `t`, other
/// keys keep their instants, keys stay unique, and no instant exceeds a bound
/// that `t` and the old table respect.
proof fn lemma_upsert_props(m: Seq<(Seq<char>, u64)>, k: Seq<char>, t: u64, bound: u64)
    requires
        unique_keys(m),
        forall|i: int| 0 <= i < m.len() ==> m[i].1 <= bound,
        t <= bound,
    ensures
        unique_keys(spec_upsert(m, k, t)),
        forall|i: int| 0 <= i < spec_upsert(m, k, t).len() ==> spec_upsert(m, k, t)[i].1 <= bound,
        spec_lookup(spec_upsert(m, k, t), k) == Some(t),
        forall|k2: Seq<char>| k2 != k ==> spec_lookup(spec_upsert(m, k, t), k2) == spec_lookup(
            m,
            k2,
        ),
    decreases m.len(),
{
    if m.len() == 0 {
        assert forall|k2: Seq<char>| k2 != k implies spec_lookup(spec_upsert(m, k, t), k2)
            == spec_lookup(m, k2) by {
            assert(spec_upsert(m, k, t).drop_first() =~= m);
        }
    } else if m[0].0 == k {
        let res = spec_upsert(m, k, t);
        assert(res =~= seq![(k, t)] + m.drop_first());
        assert(res.drop_first() =~= m.drop_first());
        assert forall|i: int, j: int| 0 <= i < j < res.len() implies res[i].0 != res[j].0 by {
            if i == 0 {
                assert(res[j] == m[j]);
                assert(m[0].0 != m[j].0);
            } else {
                assert(res[i] == m[i] && res[j] == m[j]);
            }
        }
        assert forall|k2: Seq<char>| k2 != k implies spec_lookup(res, k2) == spec_lookup(
            m,
            k2,
        ) by {
            assert(res[0].0 == k);
            assert(spec_lookup(res, k2) == spec_lookup(res.drop_first(), k2));
            assert(spec_lookup(m, k2) == spec_lookup(m.drop_first(), k2));
        }
    } else {
        let res = spec_upsert(m, k, t);
        let sub = spec_upsert(m.drop_first(), k, t);
        lemma_upsert_props(m.drop_first(), k, t, bound);
        assert(res =~= seq![m[0]] + sub);
        assert(res.drop_first() =~= sub);
        // the head's key is absent from the tail's upsert
        assert forall|j: int| 0 <= j < sub.len() implies sub[j].0 != m[0].0 by {
            lemma_upsert_membership(m.drop_first(), k, t, j);
        }
        assert forall|i: int, j: int| 0 <= i < j < res.len() implies res[i].0 != res[j].0 by {
            if i > 0 {
                assert(res[i] == sub[i - 1] && res[j] == sub[j - 1]);
            }
        }
        assert forall|k2: Seq<char>| k2 != k implies spec_lookup(res, k2) == spec_lookup(
            m,
            k2,
        ) by {
            assert(res[0] == m[0]);
            if k2 == m[0].0 {
                assert(spec_lookup(res, k2) == Some(m[0].1));
                assert(spec_lookup(m, k2) == Some(m[0].1));
            } else {
                assert(spec_lookup(res, k2) == spec_lookup(sub, k2));
                assert(spec_lookup(m, k2) == spec_lookup(m.drop_first(), k2));
            }
        }
    }
}

/// What pruning the compaction table keeps: a lookup afterwards finds exactly
/// the entries that were recent enough, unchanged; keys stay unique; every
/// kept entry stood in the table and is recent.
proof fn lemma_prune_compaction_props(m: Seq<(Seq<char>, u64)>, window: u64, now: u64)
    requires
        unique_keys(m),
    ensures
        unique_keys(spec_prune_compaction(m, window, now)),
        forall|j: int|
            0 <= j < spec_prune_compaction(m, window, now).len() ==> (exists|i: int|
                0 <= i < m.len() && #[trigger] spec_prune_compaction(m, window, now)[j] == m[i]),
        forall|j: int|
            0 <= j < spec_prune_compaction(m, window, now).len() ==> (#[trigger] spec_prune_compaction(
                m,
                window,
                now,
            )[j]).1 + window >= now,
        forall|k: Seq<char>|
            #![trigger spec_lookup(spec_prune_compaction(m, window, now), k)]
            spec_lookup(spec_prune_compaction(m, window, now), k) == (match spec_lookup(m, k) {
                Some(t) => if t + window >= now {
                    Some(t)
                } else {
                    None::<u64>
                },
                None => None::<u64>,
            }),
    decreases m.len(),
{
    let res = spec_prune_compaction(m, window, now);
    if m.len() == 0 {
    } else {
        let rest = spec_prune_compaction(m.drop_first(), window, now);
        lemma_prune_compaction_props(m.drop_first(), window, now);
        assert forall|j: int| 0 <= j < res.len() implies (exists|i: int|
            0 <= i < m.len() && #[trigger] res[j] == m[i]) by {
            if m[0].1 + window >= now {
                if j > 0 {
                    let i = choose|i: int|
                        0 <= i < m.drop_first().len() && rest[j - 1] == m.drop_first()[i];
                    assert(res[j] == m[i + 1]);
                } else {
                    assert(res[0] == m[0]);
                }
            } else {
                let i = choose|i: int|
                    0 <= i < m.drop_first().len() && rest[j] == m.drop_first()[i];
                assert(res[j] == m[i + 1]);
            }
        }
        if m[0].1 + window >= now {
            assert(res =~= seq![m[0]] + rest);
            assert forall|i: int, j: int| 0 <= i < j < res.len() implies res[i].0 != res[j].0 by {
                if i == 0 {
                    let i2 = choose|i2: int|
                        0 <= i2 < m.drop_first().len() && rest[j - 1] == m.drop_first()[i2];
                    assert(res[j] == m[i2 + 1]);
                    assert(m[0].0 != m[i2 + 1].0);
                } else {
                    assert(res[i] == rest[i - 1] && res[j] == rest[j - 1]);
                }
            }
        }
        assert forall|k: Seq<char>|
            #![trigger spec_lookup(res, k)]
            spec_lookup(res, k) == (match spec_lookup(m, k) {
                Some(t) => if t + window >= now {
                    Some(t)
                } else {
                    None::<u64>
                },
                None => None::<u64>,
            }) by {
            if k == m[0].0 {
                assert(spec_lookup(m, k) == Some(m[0].1));
                if m[0].1 + window >= now {
                    assert(res[0] == m[0]);
                    assert(spec_lookup(res, k) == Some(m[0].1));
                } else {
                    // the key occurs nowhere in the tail, so nowhere in its pruning
                    assert forall|j: int| 0 <= j < m.drop_first().len() implies m.drop_first()[j].0
                        != k by {
                        assert(m.drop_first()[j] == m[j + 1]);
                    }
                    lemma_lookup_absent(m.drop_first(), k);
                }
            } else {
                if m[0].1 + window >= now {
                    assert(res[0] == m[0]);
                    assert(spec_lookup(res, k) == spec_lookup(res.drop_first(), k));
                    assert(res.drop_first() =~= rest);
                }
                assert(spec_lookup(m, k) == spec_lookup(m.drop_first(), k));
            }
        }
    }
}

/// What pruning the retained buffer keeps: every kept message is deliverable
/// at `now` and stood in the buffer; every deliverable message is kept; the
/// stored order survives.
pub proof fn lemma_prune_retained_props(s: Seq<MessageView>, now: u64)
    ensures
        forall|j: int|
            0 <= j < spec_prune_retained(s, now).len() ==> alive_at(
                #[trigger] spec_prune_retained(s, now)[j],
                now,
            ),
        forall|j: int|
            0 <= j < spec_prune_retained(s, now).len() ==> (exists|i: int|
                0 <= i < s.len() && #[trigger] spec_prune_retained(s, now)[j] == s[i]),
        forall|i: int|
            0 <= i < s.len() && alive_at(#[trigger] s[i], now) ==> spec_prune_retained(
                s,
                now,
            ).contains(s[i]),
        sorted_by_received(s) ==> sorted_by_received(spec_prune_retained(s, now)),
    decreases s.len(),
{
    let res = spec_prune_retained(s, now);
    if s.len() == 0 {
    } else {
        let rest = spec_prune_retained(s.drop_first(), now);
        lemma_prune_retained_props(s.drop_first(), now);
        assert forall|j: int| 0 <= j < res.len() implies (exists|i: int|
            0 <= i < s.len() && #[trigger] res[j] == s[i]) by {
            if alive_at(s[0], now) {
                if j > 0 {
                    let i = choose|i: int|
                        0 <= i < s.drop_first().len() && rest[j - 1] == s.drop_first()[i];
                    assert(res[j] == s[i + 1]);
                } else {
                    assert(res[0] == s[0]);
                }
            } else {
                let i = choose|i: int|
                    0 <= i < s.drop_first().len() && rest[j] == s.drop_first()[i];
                assert(res[j] == s[i + 1]);
            }
        }
        assert forall|i: int| 0 <= i < s.len() && alive_at(#[trigger] s[i], now) implies
            res.contains(s[i]) by {
            if i == 0 {
                assert(res[0] == s[0]);
            } else {
                assert(s.drop_first()[i - 1] == s[i]);
                assert(rest.contains(s[i]));
                let j = choose|j: int| 0 <= j < rest.len() && rest[j] == s[i];
                if alive_at(s[0], now) {
                    assert(res[j + 1] == s[i]);
                } else {
                    assert(res[j] == s[i]);
                }
            }
        }
        if sorted_by_received(s) {
            assert(sorted_by_received(s.drop_first()));
            assert forall|i: int, j: int| 0 <= i <= j < res.len() implies res[i].received_at
                <= res[j].received_at by {
                if alive_at(s[0], now) {
                    if i == 0 {
                        if j > 0 {
                            assert(res[j] == rest[j - 1]);
                            let i2 = choose|i2: int|
                                0 <= i2 < s.drop_first().len() && rest[j - 1] == s.drop_first()[i2];
                            assert(s.drop_first()[i2] == s[i2 + 1]);
                            assert(s[0].received_at <= s[i2 + 1].received_at);
                        }
                    } else {
                        assert(res[i] == rest[i - 1] && res[j] == rest[j - 1]);
                    }
                } else {
                    assert(res[i] == rest[i] && res[j] == rest[j]);
                }
            }
        }
    }
}

/// Every entry of an upsert either stood in the table already or is the new
/// pair.
proof fn lemma_upsert_membership(m: Seq<(Seq<char>, u64)>, k: Seq<char>, t: u64, j: int)
    requires
        0 <= j < spec_upsert(m, k, t).len(),
    ensures
        spec_upsert(m, k, t)[j] == (k, t) || exists|i: int|
            0 <= i < m.len() && spec_upsert(m, k, t)[j] == m[i],
    decreases m.len(),
{
    if m.len() == 0 {
    } else if m[0].0 == k {
        if j > 0 {
            assert(spec_upsert(m, k, t)[j] == m[j]);
        }
    } else {
        if j > 0 {
            lemma_upsert_membership(m.drop_first(), k, t, j - 1);
            if spec_upsert(m.drop_first(), k, t)[j - 1] != (k, t) {
                let i = choose|i: int|
                    0 <= i < m.drop_first().len() && spec_upsert(m.drop_first(), k, t)[j - 1]
                        == m.drop_first()[i];
                assert(spec_upsert(m, k, t)[j] == m[i + 1]);
            }
        }
    }
}

/// The compaction table: for each key, the instant of its last forwarded
/// publish. An association list in first-insertion order; keys are unique.
#[derive(Debug)]
pub struct CompactionMap {
    pub entries: Vec<(String, u64)>,
}

impl View for CompactionMap {
    type V = Seq<(Seq<char>, u64)>;

    open spec fn view(&self) -> Seq<(Seq<char>, u64)> {
        pair_views(self.entries@)
    }
}

impl CompactionMap {
    /// The table's keys are unique.
    pub open spec fn wf(self) -> bool {
        unique_keys(self@)
    }

    /// An empty table.
    pub fn new() -> (m: CompactionMap)
        ensures
            m.wf(),
            m@ == Seq::<(Seq<char>, u64)>::empty(),
    {
        let m = CompactionMap { entries: Vec::new() };
        proof {
            assert(m@ =~= Seq::<(Seq<char>, u64)>::empty());
        }
        m
    }

    /// No entry is left.
    pub fn is_empty(&self) -> (r: bool)
        ensures
            r == (self@.len() == 0),
    {
        self.entries.is_empty()
    }

    /// How many keys the table holds.
    pub fn len(&self) -> (r: usize)
        ensures
            r == self@.len(),
    {
        self.entries.len()
    }

    /// The instant stored under `key`.
    pub fn get(&self, key: &String) -> (r: Option<u64>)
        ensures
            r == spec_lookup(self@, key@),
    {
        let n = self.entries.len();
        let mut i: usize = 0;
        while i < n
            invariant
                0 <= i <= n,
                n == self.entries.len(),
                forall|j: int| 0 <= j < i ==> (#[trigger] self@[j]).0 != key@,
            decreases n - i,
        {
            if self.entries[i].0 == *key {
                proof {
                    lemma_lookup_at(self@, key@, i as int);
                }
                return Some(self.entries[i].1);
            }
            i = i + 1;
        }
        proof {
            lemma_lookup_absent(self@, key@);
        }
        None
    }

    /// Stores `now` under `key`, replacing the key's entry where it already
    /// stands and appending it otherwise.
    pub fn upsert(&mut self, key: String, now: u64)
        requires
            old(self).wf(),
        ensures
            final(self).wf(),
            final(self)@ == spec_upsert(old(self)@, key@, now),
    {
        let n = self.entries.len();
        let mut i: usize = 0;
        while i < n
            invariant
                0 <= i <= n,
                n == self.entries.len(),
                self.entries@ == old(self).entries@,
                self@ == old(self)@,
                old(self).wf(),
                forall|j: int| 0 <= j < i ==> (#[trigger] old(self)@[j]).0 != key@,
            decreases n - i,
        {
            if self.entries[i].0 == key {
                proof {
                    lemma_upsert_at(old(self)@, key@, now, i as int);
                }
                self.entries.remove(i);
                self.entries.insert(i, (key, now));
                proof {
                    assert(self@ =~= spec_upsert(old(self)@, key@, now));
                    lemma_upsert_props(old(self)@, key@, now, u64::MAX);
                }
                return ;
            }
            i = i + 1;
        }
        proof {
            lemma_upsert_absent(old(self)@, key@, now);
        }
        self.entries.push((key, now));
        proof {
            assert(self@ =~= spec_upsert(old(self)@, key@, now));
            lemma_upsert_props(old(self)@, key@, now, u64::MAX);
        }
    }

    /// Drops every entry whose instant is more than `window` old at `now`.
    pub fn retain_recent(&mut self, window: u64, now: u64)
        ensures
            final(self)@ == spec_prune_compaction(old(self)@, window, now),
            old(self).wf() ==> final(self).wf(),
    {
        let ghost m0 = old(self)@;
        let n = self.entries.len();
        let mut kept: Vec<(String, u64)> = Vec::new();
        let mut i: usize = 0;
        proof {
            assert(m0.skip(0) =~= m0);
            assert(pair_views(kept@) =~= Seq::<(Seq<char>, u64)>::empty());
        }
        while i < n
            invariant
                0 <= i <= n,
                n == self.entries.len(),
                self.entries@ == old(self).entries@,
                spec_prune_compaction(m0, window, now) == pair_views(kept@)
                    + spec_prune_compaction(m0.skip(i as int), window, now),
                m0 == old(self)@,
            decreases n - i,
        {
            let keep = {
                let t = self.entries[i].1;
                if now >= t {
                    now - t <= window
                } else {
                    true
                }
            };
            proof {
                assert(m0.skip(i as int)[0] == m0[i as int]);
                assert(m0.skip(i as int).drop_first() =~= m0.skip(i as int + 1));
                assert(keep == (m0[i as int].1 + window >= now));
            }
            let ghost kept_before = kept@;
            if keep {
                let pair = (self.entries[i].0.clone(), self.entries[i].1);
                kept.push(pair);
                proof {
                    assert(pair_views(kept@) =~= pair_views(kept_before) + seq![m0[i as int]]);
                    assert(pair_views(kept_before) + (seq![m0[i as int]] + spec_prune_compaction(
                        m0.skip(i as int + 1),
                        window,
                        now,
                    )) =~= pair_views(kept@) + spec_prune_compaction(
                        m0.skip(i as int + 1),
                        window,
                        now,
                    ));
                }
            }
            i = i + 1;
        }
        proof {
            assert(m0.skip(n as int) =~= Seq::<(Seq<char>, u64)>::empty());
            assert(pair_views(kept@) + spec_prune_compaction(m0.skip(n as int), window, now)
                =~= pair_views(kept@));
        }
        self.entries = kept;
        proof {
            if old(self).wf() {
                lemma_prune_compaction_props(m0, window, now);
            }
        }
    }
}

/// All state of one topic, save the live fan-out channel it feeds.
#[derive(Debug)]
pub struct TopicController {
    /// The topic's immutable identity.
    pub name: String,
    /// The topic's immutable configuration.
    pub settings: TopicSettings,
    /// Per key, the instant of its last forwarded publish; populated only
    /// when compaction is enabled.
    pub compaction_map: CompactionMap,
    /// Messages inside their retention horizon, chronological by arrival;
    /// populated only when retention is enabled.
    pub retained_buffer: Vec<Message>,
    /// The newest instant this topic has handled; publishes carry
    /// non-decreasing instants, as the broker stamps them from one monotonic
    /// clock while holding the topic.
    pub last_instant: u64,
}

/// The mathematical content of a [`TopicController`].
pub struct ControllerView {
    pub name: Seq<char>,
    pub settings: TopicSettings,
    pub compaction: Seq<(Seq<char>, u64)>,
    pub retained: Seq<MessageView>,
    pub last_instant: u64,
}

impl View for TopicController {
    type V = ControllerView;

    open spec fn view(&self) -> ControllerView {
        ControllerView {
            name: self.name@,
            settings: self.settings,
            compaction: self.compaction_map@,
            retained: msg_views(self.retained_buffer@),
            last_instant: self.last_instant,
        }
    }
}

/// A topic's internal invariant. Constructors establish it and every
/// operation preserves it: compaction keys are unique and their instants no
/// newer than the topic's watermark; the retained buffer is chronological,
/// within the watermark, and used only under retention, where every entry
/// carries the expiry its arrival implies.
pub open spec fn cv_wf(c: ControllerView) -> bool {
    &&& unique_keys(c.compaction)
    &&& forall|i: int| 0 <= i < c.compaction.len() ==> (#[trigger] c.compaction[i]).1
        <= c.last_instant
    &&& sorted_by_received(c.retained)
    &&& forall|i: int| 0 <= i < c.retained.len() ==> (#[trigger] c.retained[i]).received_at
        <= c.last_instant
    &&& match c.settings.retention_ttl {
        None => c.retained.len() == 0,
        Some(ttl) => forall|i: int|
            0 <= i < c.retained.len() ==> (#[trigger] c.retained[i]).expires_at == Some(
                spec_expires(c.retained[i].received_at, ttl),
            ),
    }
}

/// One publish at instant `now`: build the message, consult compaction, fan
/// out unless it is a suppressed duplicate, retain it under retention, then
/// prune both tables. The second component is what enters the live fan-out.
pub open spec fn spec_publish(
    c: ControllerView,
    key: Option<Seq<char>>,
    payload: Seq<u8>,
    now: u64,
) -> (ControllerView, Option<MessageView>) {
    let msg = spec_msg(key, payload, now, c.settings.retention_ttl);
    let dup = match c.settings.compaction_window {
        Some(w) => spec_is_dup(c.compaction, key, w, now),
        None => false,
    };
    let comp1 = match (c.settings.compaction_window, key) {
        (Some(_), Some(k)) => if dup {
            c.compaction
        } else {
            spec_upsert(c.compaction, k, now)
        },
        _ => c.compaction,
    };
    let ret1 = if !dup && c.settings.retention_ttl is Some {
        c.retained.push(msg)
    } else {
        c.retained
    };
    let ret2 = if c.settings.retention_ttl is Some {
        spec_prune_retained(ret1, now)
    } else {
        ret1
    };
    let comp2 = match c.settings.compaction_window {
        Some(w) => spec_prune_compaction(comp1, w, now),
        None => comp1,
    };
    (
        ControllerView {
            name: c.name,
            settings: c.settings,
            compaction: comp2,
            retained: ret2,
            last_instant: now,
        },
        if dup {
            None
        } else {
            Some(msg)
        },
    )
}

impl TopicController {
    /// The topic's internal invariant; see [`cv_wf`].
    pub open spec fn wf(self) -> bool {
        cv_wf(self@)
    }

    /// A fresh topic with normalized settings and nothing stored.
    pub fn new(name: String, retention_ttl: u64, compaction_window: u64, buffer_size: u32) -> (c:
        TopicController)
        ensures
            c.wf(),
            c@.name == name@,
            c@.settings == spec_settings(retention_ttl, compaction_window, buffer_size as usize),
            c@.compaction == Seq::<(Seq<char>, u64)>::empty(),
            c@.retained == Seq::<MessageView>::empty(),
            c@.last_instant == 0,
    {
        let settings = TopicSettings::new(retention_ttl, compaction_window, buffer_size as usize);
        let c = TopicController {
            name,
            settings,
            compaction_map: CompactionMap::new(),
            retained_buffer: Vec::new(),
            last_instant: 0,
        };
        proof {
            assert(msg_views(c.retained_buffer@) =~= Seq::<MessageView>::empty());
        }
        c
    }

    /// Consults and maintains the compaction table for one publish at `now`:
    /// a keyless message is never a duplicate; a key seen less than a window
    /// ago is a duplicate and leaves the table untouched, so the window keeps
    /// measuring from the run's first forwarded occurrence; otherwise the
    /// key's entry is set to `now`.
    pub fn check_duplicate_and_update_compaction_map(
        message: &Message,
        compaction_map: &mut CompactionMap,
        compaction_window: u64,
        now: u64,
    ) -> (dup: bool)
        requires
            old(compaction_map).wf(),
        ensures
            final(compaction_map).wf(),
            dup == spec_is_dup(old(compaction_map)@, message@.key, compaction_window, now),
            final(compaction_map)@ == (if dup {
                old(compaction_map)@
            } else {
                match message@.key {
                    None => old(compaction_map)@,
                    Some(k) => spec_upsert(old(compaction_map)@, k, now),
                }
            }),
    {
        match &message.key {
            None => false,
            Some(key) => {
                match compaction_map.get(key) {
                    Some(last_sent_at) => {
                        let since_last_seen = if now >= last_sent_at {
                            now - last_sent_at
                        } else {
                            0
                        };
                        if since_last_seen < compaction_window {
                            true
                        } else {
                            compaction_map.upsert(key.clone(), now);
                            false
                        }
                    },
                    None => {
                        compaction_map.upsert(key.clone(), now);
                        false
                    },
                }
            },
        }
    }

    /// Drops every compaction entry whose instant is more than a window old
    /// at `now`; without compaction this does nothing.
    pub fn clean_outdated_compaction_keys(&mut self, now: u64)
        ensures
            final(self)@ == (ControllerView {
                compaction: match old(self)@.settings.compaction_window {
                    Some(w) => spec_prune_compaction(old(self)@.compaction, w, now),
                    None => old(self)@.compaction,
                },
                ..old(self)@
            }),
            unique_keys(old(self)@.compaction) ==> unique_keys(final(self)@.compaction),
    {
        let window = self.settings.compaction_window;
        match window {
            Some(w) => {
                self.compaction_map.retain_recent(w, now);
            },
            None => {},
        }
    }

    /// Drops every retained message no longer deliverable at `now`; without
    /// retention this does nothing.
    pub fn clean_outdated_retained_messages(&mut self, now: u64)
        ensures
            final(self)@ == (ControllerView {
                retained: if old(self)@.settings.retention_ttl is Some {
                    spec_prune_retained(old(self)@.retained, now)
                } else {
                    old(self)@.retained
                },
                ..old(self)@
            }),
    {
        if self.settings.retention_ttl.is_some() {
            let ghost r0 = msg_views(old(self).retained_buffer@);
            let n = self.retained_buffer.len();
            let mut kept: Vec<Message> = Vec::new();
            let mut i: usize = 0;
            proof {
                assert(r0.skip(0) =~= r0);
                assert(msg_views(kept@) =~= Seq::<MessageView>::empty());
            }
            while i < n
                invariant
                    0 <= i <= n,
                    n == self.retained_buffer.len(),
                    self.retained_buffer@ == old(self).retained_buffer@,
                    r0 == msg_views(old(self).retained_buffer@),
                    spec_prune_retained(r0, now) == msg_views(kept@) + spec_prune_retained(
                        r0.skip(i as int),
                        now,
                    ),
                decreases n - i,
            {
                let keep = match self.retained_buffer[i].expires_at {
                    None => true,
                    Some(e) => e > now,
                };
                proof {
                    assert(r0.skip(i as int)[0] == r0[i as int]);
                    assert(r0.skip(i as int).drop_first() =~= r0.skip(i as int + 1));
                    assert(keep == alive_at(r0[i as int], now));
                }
                let ghost kept_before = kept@;
                if keep {
                    let m = self.retained_buffer[i].clone();
                    kept.push(m);
                    proof {
                        assert(msg_views(kept@) =~= msg_views(kept_before) + seq![r0[i as int]]);
                        assert(msg_views(kept_before) + (seq![r0[i as int]] + spec_prune_retained(
                            r0.skip(i as int + 1),
                            now,
                        )) =~= msg_views(kept@) + spec_prune_retained(r0.skip(i as int + 1), now));
                    }
                }
                i = i + 1;
            }
            proof {
                assert(r0.skip(n as int) =~= Seq::<MessageView>::empty());
                assert(msg_views(kept@) + spec_prune_retained(r0.skip(n as int), now) =~= msg_views(
                    kept@,
                ));
            }
            self.retained_buffer = kept;
        }
    }

    /// One publish, serialized per topic: stamps the expiry under retention,
    /// suppresses a duplicate key inside the compaction window, retains the
    /// message under retention, prunes both tables, and returns the message
    /// to fan out to live subscribers, or nothing for a duplicate.
    ///
    /// `received_at` is the broker's stamp at command handling; stamps are
    /// non-decreasing per topic, which the watermark `last_instant` records.
    pub fn publish(&mut self, key: Option<String>, payload: Vec<u8>, received_at: u64) -> (forwarded:
        Option<Message>)
        requires
            old(self).wf(),
            received_at >= old(self)@.last_instant,
        ensures
            final(self).wf(),
            final(self)@ == spec_publish(old(self)@, key.deep_view(), payload@, received_at).0,
            match (forwarded, spec_publish(old(self)@, key.deep_view(), payload@, received_at).1) {
                (Some(m), Some(mv)) => m@ == mv,
                (None, None) => true,
                _ => false,
            },
    {
        let ghost c0 = old(self)@;
        let ghost kv = key.deep_view();
        let expires_at = match self.settings.retention_ttl {
            None => None,
            Some(ttl) => Some(
                if received_at > u64::MAX - ttl {
                    u64::MAX
                } else {
                    received_at + ttl
                },
            ),
        };
        let message = Message { key, payload, received_at, expires_at };
        proof {
            assert(message@ == spec_msg(kv, payload@, received_at, c0.settings.retention_ttl));
        }
        let is_duplicate = match self.settings.compaction_window {
            Some(window) => Self::check_duplicate_and_update_compaction_map(
                &message,
                &mut self.compaction_map,
                window,
                received_at,
            ),
            None => false,
        };
        let forwarded = if !is_duplicate {
            let copy = message.clone();
            if self.settings.retention_ttl.is_some() {
                self.retained_buffer.push(message);
            }
            Some(copy)
        } else {
            None
        };
        self.last_instant = received_at;
        proof {
            let ret1 = if !is_duplicate && c0.settings.retention_ttl is Some {
                c0.retained.push(spec_msg(kv, payload@, received_at, c0.settings.retention_ttl))
            } else {
                c0.retained
            };
            assert(msg_views(self.retained_buffer@) =~= ret1);
        }
        self.clean_outdated_retained_messages(received_at);
        self.clean_outdated_compaction_keys(received_at);
        proof {
            lemma_publish_wf(c0, kv, payload@, received_at);
        }
        forwarded
    }

    /// A new subscriber's replay source: a snapshot of the retained buffer,
    /// in its stored order. The caller registers the subscriber's live
    /// receiver while it holds the topic, so the snapshot and the live feed
    /// join without a gap or an overlap.
    pub fn subscribe(&self) -> (snapshot: Vec<Message>)
        ensures
            msg_views(snapshot@) == self@.retained,
    {
        let n = self.retained_buffer.len();
        let mut snapshot: Vec<Message> = Vec::new();
        let mut i: usize = 0;
        proof {
            assert(msg_views(snapshot@) =~= self@.retained.take(0));
        }
        while i < n
            invariant
                0 <= i <= n,
                n == self.retained_buffer.len(),
                msg_views(snapshot@) == self@.retained.take(i as int),
            decreases n - i,
        {
            let ghost before = snapshot@;
            let m = self.retained_buffer[i].clone();
            snapshot.push(m);
            proof {
                assert(msg_views(snapshot@) =~= msg_views(before).push(
                    self.retained_buffer@[i as int]@,
                ));
                assert(self@.retained.take(i as int + 1) =~= self@.retained.take(i as int).push(
                    self@.retained[i as int],
                ));
            }
            i = i + 1;
        }
        proof {
            assert(self@.retained.take(n as int) =~= self@.retained);
        }
        snapshot
    }
}

/// Publishing preserves the topic invariant: the updated and pruned tables
/// keep unique, watermark-bounded compaction entries, and the retained buffer
/// stays chronological with the expiries retention stamps.
proof fn lemma_publish_wf(c: ControllerView, key: Option<Seq<char>>, payload: Seq<u8>, now: u64)
    requires
        cv_wf(c),
        now >= c.last_instant,
    ensures
        cv_wf(spec_publish(c, key, payload, now).0),
{
    let msg = spec_msg(key, payload, now, c.settings.retention_ttl);
    let dup = match c.settings.compaction_window {
        Some(w) => spec_is_dup(c.compaction, key, w, now),
        None => false,
    };
    let comp1 = match (c.settings.compaction_window, key) {
        (Some(_), Some(k)) => if dup {
            c.compaction
        } else {
            spec_upsert(c.compaction, k, now)
        },
        _ => c.compaction,
    };
    let ret1 = if !dup && c.settings.retention_ttl is Some {
        c.retained.push(msg)
    } else {
        c.retained
    };
    // the updated compaction table: unique keys, instants at most `now`
    match (c.settings.compaction_window, key) {
        (Some(_), Some(k)) => {
            if !dup {
                lemma_upsert_props(c.compaction, k, now, now);
            }
        },
        _ => {},
    }
    assert(unique_keys(comp1));
    assert(forall|i: int| 0 <= i < comp1.len() ==> (#[trigger] comp1[i]).1 <= now);
    match c.settings.compaction_window {
        Some(w) => {
            let comp2 = spec_prune_compaction(comp1, w, now);
            lemma_prune_compaction_props(comp1, w, now);
            assert forall|i: int| 0 <= i < comp2.len() implies (#[trigger] comp2[i]).1 <= now by {
                let j = choose|j: int| 0 <= j < comp1.len() && comp2[i] == comp1[j];
            }
        },
        None => {},
    }
    // the retained buffer after push: chronological, bounded, well-stamped
    assert(sorted_by_received(ret1));
    assert(forall|i: int| 0 <= i < ret1.len() ==> (#[trigger] ret1[i]).received_at <= now);
    match c.settings.retention_ttl {
        Some(ttl) => {
            assert(forall|i: int|
                0 <= i < ret1.len() ==> (#[trigger] ret1[i]).expires_at == Some(
                    spec_expires(ret1[i].received_at, ttl),
                ));
            let ret2 = spec_prune_retained(ret1, now);
            lemma_prune_retained_props(ret1, now);
            assert forall|i: int| 0 <= i < ret2.len() implies (#[trigger] ret2[i]).received_at
                <= now && ret2[i].expires_at == Some(spec_expires(ret2[i].received_at, ttl)) by {
                let j = choose|j: int| 0 <= j < ret1.len() && ret2[i] == ret1[j];
            }
        },
        None => {},
    }
}

/// Per-topic order: under the topic invariant the retained buffer — what a
/// subscriber's snapshot replays — is chronological, a publish keeps it so,
/// and the message a publish forwards into the live feed is no older than
/// everything already retained. The replay-to-live seam therefore keeps the
/// arrival order; the live channel itself hands messages out in send order.
pub proof fn lemma_per_topic_fifo(
    c: ControllerView,
    key: Option<Seq<char>>,
    payload: Seq<u8>,
    now: u64,
)
    requires
        cv_wf(c),
        now >= c.last_instant,
    ensures
        sorted_by_received(c.retained),
        sorted_by_received(spec_publish(c, key, payload, now).0.retained),
        spec_publish(c, key, payload, now).1 matches Some(mv) ==> mv.received_at == now && (forall|
            i: int,
        |
            0 <= i < c.retained.len() ==> (#[trigger] c.retained[i]).received_at
                <= mv.received_at),
{
    lemma_publish_wf(c, key, payload, now);
}

/// Compaction correctness: once a publish bearing key `k` was forwarded at
/// `t1`, a second publish bearing `k` less than a window later is suppressed —
/// nothing is forwarded and nothing new is retained, the buffer only loses
/// what expires. The window measures from the forwarded occurrence: the
/// suppressed publish does not move it.
pub proof fn lemma_compaction_correctness(
    c: ControllerView,
    k: Seq<char>,
    p1: Seq<u8>,
    p2: Seq<u8>,
    t1: u64,
    t2: u64,
    w: u64,
)
    requires
        cv_wf(c),
        c.settings.compaction_window == Some(w),
        t1 >= c.last_instant,
        t1 <= t2,
        t2 - t1 < w,
        k.len() > 0,
        spec_publish(c, Some(k), p1, t1).1 is Some,
    ensures
        ({
            let c1 = spec_publish(c, Some(k), p1, t1).0;
            let second = spec_publish(c1, Some(k), p2, t2);
            &&& second.1 is None
            &&& second.0.retained == (match c1.settings.retention_ttl {
                Some(_) => spec_prune_retained(c1.retained, t2),
                None => c1.retained,
            })
        }),
{
    let c1 = spec_publish(c, Some(k), p1, t1).0;
    let comp_up = spec_upsert(c.compaction, k, t1);
    lemma_upsert_props(c.compaction, k, t1, t1);
    lemma_prune_compaction_props(comp_up, w, t1);
    assert(c1.compaction == spec_prune_compaction(comp_up, w, t1));
    assert(spec_lookup(comp_up, k) == Some(t1));
    assert(spec_lookup(c1.compaction, k) == Some(t1));
    assert(spec_is_dup(c1.compaction, Some(k), w, t2));
}

} // verus!
