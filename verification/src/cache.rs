//! A time-bounded cache from file paths to their last-read content.
//!
//! Each entry pairs the content with the epoch second at which it was
//! stored.  A lookup serves the content only while fewer than
//! [`FRESHNESS_WINDOW_SECONDS`] seconds have elapsed; a stale entry is
//! treated as absent but is not evicted (passive expiry).  Should the clock
//! appear to run backward, an entry whose stamp lies in the future counts as
//! fresh.  Growth is unbounded by design: the map lives for the session and
//! has no eviction beyond time.

use vstd::prelude::*;

verus! {

/// How long, in seconds, a stored entry is served before counting as stale.
pub const FRESHNESS_WINDOW_SECONDS: u64 = 5;

/// One cache entry: a path, the content read from it, and the epoch second
/// at which the content was stored.
pub struct CacheSlot {
    pub path: String,
    pub content: String,
    pub stamp: u64,
}

/// An entry stamped at `stamp` is fresh at time `now` while fewer than
/// [`FRESHNESS_WINDOW_SECONDS`] seconds have passed; a stamp in the future
/// (clock ran backward) also counts as fresh.
pub open spec fn fresh_at(stamp: u64, now: u64) -> bool {
    (now as int) < stamp as int + FRESHNESS_WINDOW_SECONDS as int
}

/// The first entry for path `p`, if any: its content and stamp.
pub open spec fn spec_lookup(s: Seq<CacheSlot>, p: Seq<char>) -> Option<(Seq<char>, u64)>
    decreases s.len(),
{
    if s.len() == 0 {
        None
    } else if s[0].path@ == p {
        Some((s[0].content@, s[0].stamp))
    } else {
        spec_lookup(s.drop_first(), p)
    }
}

/// What a lookup at time `now` returns: the stored content when an entry
/// exists and is fresh, absence otherwise.
pub open spec fn spec_get(s: Seq<CacheSlot>, p: Seq<char>, now: u64) -> Option<Seq<char>> {
    match spec_lookup(s, p) {
        Some((c, t)) => if fresh_at(t, now) {
            Some(c)
        } else {
            None
        },
        None => None,
    }
}

/// The entry sequence after storing `slot`: the first entry with the same
/// path is replaced in place, and a new path is appended at the end.
pub open spec fn spec_set(s: Seq<CacheSlot>, slot: CacheSlot) -> Seq<CacheSlot>
    decreases s.len(),
{
    if s.len() == 0 {
        seq![slot]
    } else if s[0].path@ == slot.path@ {
        seq![slot] + s.drop_first()
    } else {
        seq![s[0]] + spec_set(s.drop_first(), slot)
    }
}

/// Maps a file path to its last-read content plus the time it was stored.
pub struct FileCache {
    entries: Vec<CacheSlot>,
}

impl FileCache {
    /// The entries held, in storage order.
    pub closed spec fn model(&self) -> Seq<CacheSlot> {
        self.entries@
    }

    /// An empty cache.
    pub fn new() -> (r: FileCache)
        ensures
            r.model() == Seq::<CacheSlot>::empty(),
    {
        FileCache { entries: Vec::new() }
    }

    /// Lookup at an explicit time: returns a copy of the content stored for
    /// `path` exactly when such an entry exists and is fresh at `now`.
    #[verifier::loop_isolation(false)]
    pub fn get_at(&self, path: &String, now: u64) -> (r: Option<String>)
        ensures
            match r {
                Some(c) => spec_get(self.model(), path@, now) == Some(c@),
                None => spec_get(self.model(), path@, now) is None,
            },
    {
        let n = self.entries.len();
        let mut i: usize = 0;
        proof {
            assert(self.entries@.skip(0) =~= self.entries@);
        }
        while i < n
            invariant
                i <= n,
                spec_lookup(self.entries@, path@) == spec_lookup(self.entries@.skip(i as int), path@),
            decreases n - i,
        {
            proof {
                lemma_lookup_skip_step(self.entries@, path@, i as int);
            }
            if self.entries[i].path == *path {
                let slot = &self.entries[i];
                if now < slot.stamp || now - slot.stamp < FRESHNESS_WINDOW_SECONDS {
                    return Some(slot.content.clone());
                } else {
                    return None;
                }
            }
            i = i + 1;
        }
        proof {
            assert(self.entries@.skip(n as int) =~= Seq::<CacheSlot>::empty());
        }
        None
    }

    /// Stores `content` for `path` with stamp `now`, replacing any earlier
    /// entry for the same path.
    #[verifier::loop_isolation(false)]
    pub fn set_at(&mut self, path: String, content: String, now: u64)
        ensures
            final(self).model() == spec_set(old(self).model(), (CacheSlot { path, content, stamp: now })),
    {
        let ghost slot = CacheSlot { path: path, content: content, stamp: now };
        let n = self.entries.len();
        let mut i: usize = 0;
        while i < n
            invariant
                n == self.entries.len(),
                i <= n,
                self.entries@ == old(self).entries@,
                forall|j: int| 0 <= j < i ==> self.entries@[j].path@ != path@,
            decreases n - i,
        {
            if self.entries[i].path == path {
                let new_slot = CacheSlot { path, content, stamp: now };
                self.entries.remove(i);
                self.entries.insert(i, new_slot);
                proof {
                    lemma_set_replaces_at(old(self).entries@, slot, i as int);
                    assert(self.entries@ =~= old(self).entries@.update(i as int, slot));
                }
                return ;
            }
            i = i + 1;
        }
        let new_slot = CacheSlot { path, content, stamp: now };
        self.entries.push(new_slot);
        proof {
            lemma_set_appends(old(self).entries@, slot);
        }
    }

    /// Lookup at the current time.  Absence is owed whenever no entry exists
    /// for `path`; a returned value is always the content stored for `path`.
    pub fn get(&self, path: &String) -> (r: Option<String>)
        ensures
            (exists|now: u64| spec_result_matches(r, spec_get(self.model(), path@, now))),
            spec_lookup(self.model(), path@) is None ==> r is None,
            r matches Some(c) ==> spec_lookup(self.model(), path@) matches Some(pr) && pr.0 == c@,
    {
        let now = now_epoch_seconds();
        let r = self.get_at(path, now);
        proof {
            assert(spec_result_matches(r, spec_get(self.model(), path@, now)));
        }
        r
    }

    /// Stores `content` for `path`, stamped with the current time.
    pub fn set(&mut self, path: String, content: String)
        ensures
            (exists|t: u64|
                final(self).model() == spec_set(old(self).model(), (CacheSlot { path, content, stamp: t }))),
            spec_lookup(final(self).model(), path@) matches Some(pr) && pr.0 == content@,
            forall|q: Seq<char>|
                q != path@ ==> spec_lookup(final(self).model(), q) == spec_lookup(old(self).model(), q),
    {
        let now = now_epoch_seconds();
        let ghost slot = CacheSlot { path: path, content: content, stamp: now };
        self.set_at(path, content, now);
        proof {
            lemma_set_then_lookup(old(self).model(), slot);
            assert forall|q: Seq<char>| q != slot.path@ implies spec_lookup(final(self).model(), q)
                == spec_lookup(old(self).model(), q) by {
                lemma_set_keeps_other(old(self).model(), slot, q);
            }
        }
    }
}

/// An exec `Option<String>` agrees with a spec `Option<Seq<char>>`.
pub open spec fn spec_result_matches(r: Option<String>, s: Option<Seq<char>>) -> bool {
    match r {
        Some(c) => s == Some(c@),
        None => s is None,
    }
}

/// Relies on `std::time::SystemTime::now`: the instant it returns is
/// converted to whole seconds since the Unix epoch (zero if the clock
/// reads before the epoch).  Nothing is promised of the value: time is
/// nondeterministic, and every caller states what holds of any outcome.
#[verifier::external_body]
fn now_epoch_seconds() -> u64 {
    std::time::SystemTime::now()
        .duration_since(std::time::SystemTime::UNIX_EPOCH)
        .map(|d| d.as_secs())
        .unwrap_or(0)
}

proof fn lemma_lookup_skip_step(s: Seq<CacheSlot>, p: Seq<char>, i: int)
    requires
        0 <= i < s.len(),
        spec_lookup(s, p) == spec_lookup(s.skip(i), p),
    ensures
        s[i].path@ == p ==> spec_lookup(s, p) == Some((s[i].content@, s[i].stamp)),
        s[i].path@ != p ==> spec_lookup(s, p) == spec_lookup(s.skip(i + 1), p),
{
    assert(s.skip(i).len() > 0);
    assert(s.skip(i)[0] == s[i]);
    assert(s.skip(i).drop_first() =~= s.skip(i + 1));
}

proof fn lemma_set_replaces_at(s: Seq<CacheSlot>, slot: CacheSlot, i: int)
    requires
        0 <= i < s.len(),
        s[i].path@ == slot.path@,
        forall|j: int| 0 <= j < i ==> s[j].path@ != slot.path@,
    ensures
        spec_set(s, slot) == s.update(i, slot),
    decreases s.len(),
{
    if i == 0 {
        assert(spec_set(s, slot) == seq![slot] + s.drop_first());
        assert(seq![slot] + s.drop_first() =~= s.update(0, slot));
    } else {
        assert(s[0].path@ != slot.path@);
        lemma_set_replaces_at(s.drop_first(), slot, i - 1);
        assert(spec_set(s, slot) == seq![s[0]] + spec_set(s.drop_first(), slot));
        assert(seq![s[0]] + s.drop_first().update(i - 1, slot) =~= s.update(i, slot));
    }
}

proof fn lemma_set_appends(s: Seq<CacheSlot>, slot: CacheSlot)
    requires
        forall|j: int| 0 <= j < s.len() ==> s[j].path@ != slot.path@,
    ensures
        spec_set(s, slot) == s.push(slot),
    decreases s.len(),
{
    if s.len() == 0 {
        assert(seq![slot] =~= s.push(slot));
    } else {
        lemma_set_appends(s.drop_first(), slot);
        assert(seq![s[0]] + s.drop_first().push(slot) =~= s.push(slot));
    }
}

/// After a store, a lookup for the stored path finds exactly the stored
/// content and stamp.
pub proof fn lemma_set_then_lookup(s: Seq<CacheSlot>, slot: CacheSlot)
    ensures
        spec_lookup(spec_set(s, slot), slot.path@) == Some((slot.content@, slot.stamp)),
    decreases s.len(),
{
    if s.len() == 0 {
    } else if s[0].path@ == slot.path@ {
        assert(spec_set(s, slot)[0] == slot);
    } else {
        lemma_set_then_lookup(s.drop_first(), slot);
        assert((seq![s[0]] + spec_set(s.drop_first(), slot)).drop_first() =~= spec_set(s.drop_first(), slot));
    }
}

/// A store for one path leaves the lookup for any other path unchanged.
pub proof fn lemma_set_keeps_other(s: Seq<CacheSlot>, slot: CacheSlot, q: Seq<char>)
    requires
        q != slot.path@,
    ensures
        spec_lookup(spec_set(s, slot), q) == spec_lookup(s, q),
    decreases s.len(),
{
    if s.len() == 0 {
        assert(spec_set(s, slot) == seq![slot]);
        assert(spec_set(s, slot).drop_first() =~= Seq::<CacheSlot>::empty());
        assert(spec_lookup(spec_set(s, slot), q) == spec_lookup(s, q));
    } else if s[0].path@ == slot.path@ {
        assert(spec_set(s, slot) == seq![slot] + s.drop_first());
        assert(spec_set(s, slot)[0] == slot);
        assert(spec_set(s, slot).drop_first() =~= s.drop_first());
        assert(spec_lookup(spec_set(s, slot), q) == spec_lookup(spec_set(s, slot).drop_first(), q));
        assert(spec_lookup(spec_set(s, slot), q) == spec_lookup(s, q));
    } else {
        lemma_set_keeps_other(s.drop_first(), slot, q);
        assert(spec_set(s, slot) == seq![s[0]] + spec_set(s.drop_first(), slot));
        assert(spec_set(s, slot)[0] == s[0]);
        assert(spec_set(s, slot).drop_first() =~= spec_set(s.drop_first(), slot));
        if s[0].path@ == q {
            assert(spec_lookup(spec_set(s, slot), q) == Some((s[0].content@, s[0].stamp)));
            assert(spec_lookup(s, q) == Some((s[0].content@, s[0].stamp)));
        } else {
            assert(spec_lookup(spec_set(s, slot), q) == spec_lookup(spec_set(s.drop_first(), slot), q));
            assert(spec_lookup(s, q) == spec_lookup(s.drop_first(), q));
        }
        assert(spec_lookup(spec_set(s, slot), q) == spec_lookup(s, q));
    }
}

/// Law: content stored at time `t` is returned by a lookup at any time
/// strictly inside the freshness window, and treated as absent from the
/// moment the window has elapsed.
pub proof fn lemma_set_then_get(s: Seq<CacheSlot>, slot: CacheSlot, now: u64)
    ensures
        fresh_at(slot.stamp, now) ==> spec_get(spec_set(s, slot), slot.path@, now) == Some(slot.content@),
        !fresh_at(slot.stamp, now) ==> spec_get(spec_set(s, slot), slot.path@, now) is None,
{
    lemma_set_then_lookup(s, slot);
}

/// Law: a lookup on a path that was never stored returns absence, at every
/// time.
pub proof fn lemma_get_never_set(p: Seq<char>, now: u64)
    ensures
        spec_get(Seq::<CacheSlot>::empty(), p, now) is None,
{
}

} // verus!
