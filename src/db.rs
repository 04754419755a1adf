//! The shared state: keys and their values, the index of expiry deadlines,
//! the registry of publish/subscribe channels, and the shutdown flag.
//! Deadlines are instants in milliseconds on a clock that the caller reads.
use vstd::prelude::*;
use vstd::slice::slice_to_vec;

verus! {

/// A stored value, and the instant at which it expires, if it does.
pub struct Entry {
    pub data: Vec<u8>,
    pub expires_at: Option<u64>,
}

/// What a key maps to: its bytes and its deadline.
pub type EntryView = (Seq<u8>, Option<u64>);

/// The store. `S` is the sending side of a channel's broadcast.
pub struct State<S> {
    entries: Vec<(String, Entry)>,
    expirations: Vec<(u64, String)>,
    pub_sub: Vec<(String, S)>,
    shutdown: bool,
}

// ---------------------------------------------------------------------------
// Models
// ---------------------------------------------------------------------------

/// The map from keys to entries that a list of pairs stands for.
pub open spec fn kv_of(s: Seq<(String, Entry)>) -> Map<Seq<char>, EntryView>
    decreases s.len(),
{
    if s.len() == 0 {
        Map::empty()
    } else {
        let last = s[s.len() - 1];
        kv_of(s.subrange(0, s.len() - 1)).insert(last.0@, (last.1.data@, last.1.expires_at))
    }
}

/// The set of `(deadline, key)` pairs that a list stands for.
pub open spec fn exp_of(s: Seq<(u64, String)>) -> Set<(u64, Seq<char>)>
    decreases s.len(),
{
    if s.len() == 0 {
        Set::empty()
    } else {
        let last = s[s.len() - 1];
        exp_of(s.subrange(0, s.len() - 1)).insert((last.0, last.1@))
    }
}

/// The map from channel names to senders that a list stands for.
pub open spec fn channels_of<S>(s: Seq<(String, S)>) -> Map<Seq<char>, S>
    decreases s.len(),
{
    if s.len() == 0 {
        Map::empty()
    } else {
        let last = s[s.len() - 1];
        channels_of(s.subrange(0, s.len() - 1)).insert(last.0@, last.1)
    }
}

pub open spec fn entry_keys_unique(s: Seq<(String, Entry)>) -> bool {
    forall|i: int, j: int| 0 <= i < j < s.len() ==> s[i].0@ != s[j].0@
}

pub open spec fn exp_keys_unique(s: Seq<(u64, String)>) -> bool {
    forall|i: int, j: int| 0 <= i < j < s.len() ==> s[i].1@ != s[j].1@
}

pub open spec fn channel_names_unique<S>(s: Seq<(String, S)>) -> bool {
    forall|i: int, j: int| 0 <= i < j < s.len() ==> s[i].0@ != s[j].0@
}

/// The index holds a pair for every key with a deadline, with that deadline,
/// and no other pair.
pub open spec fn index_consistent(
    kv: Map<Seq<char>, EntryView>,
    exp: Set<(u64, Seq<char>)>,
) -> bool {
    &&& forall|k: Seq<char>, t: u64|
        kv.contains_key(k) && kv[k].1 == Some(t) ==> #[trigger] exp.contains((t, k))
    &&& forall|p: (u64, Seq<char>)|
        #[trigger] exp.contains(p) ==> kv.contains_key(p.1) && kv[p.1].1 == Some(p.0)
}

/// No key has two pairs in the index.
pub open spec fn index_keys_unique(exp: Set<(u64, Seq<char>)>) -> bool {
    forall|p: (u64, Seq<char>), q: (u64, Seq<char>)|
        #![trigger exp.contains(p), exp.contains(q)]
        exp.contains(p) && exp.contains(q) && p.1 == q.1 ==> p == q
}

/// `t` is the earliest deadline in the index.
pub open spec fn is_earliest(exp: Set<(u64, Seq<char>)>, t: u64) -> bool {
    &&& exists|k: Seq<char>| exp.contains((t, k))
    &&& forall|p: (u64, Seq<char>)| #[trigger] exp.contains(p) ==> t <= p.0
}

pub open spec fn index_empty(exp: Set<(u64, Seq<char>)>) -> bool {
    forall|p: (u64, Seq<char>)| !exp.contains(p)
}

/// What the index says comes next: nothing when it is empty, else its
/// earliest deadline.
pub open spec fn next_of(exp: Set<(u64, Seq<char>)>, r: Option<u64>) -> bool {
    match r {
        None => index_empty(exp),
        Some(t) => is_earliest(exp, t),
    }
}

/// The deadline `d` milliseconds after `now`; the last instant the clock
/// can show where that is past it.
pub open spec fn deadline(now: u64, d: u64) -> u64 {
    if now + d > u64::MAX {
        u64::MAX
    } else {
        (now + d) as u64
    }
}

/// Whether an entry with this deadline has expired at `now`.
pub open spec fn expired(expires_at: Option<u64>, now: u64) -> bool {
    match expires_at {
        Some(t) => t <= now,
        None => false,
    }
}

impl<S> State<S> {
    pub closed spec fn kv(&self) -> Map<Seq<char>, EntryView> {
        kv_of(self.entries@)
    }

    pub closed spec fn index(&self) -> Set<(u64, Seq<char>)> {
        exp_of(self.expirations@)
    }

    pub closed spec fn channels(&self) -> Map<Seq<char>, S> {
        channels_of(self.pub_sub@)
    }

    pub closed spec fn is_shut_down(&self) -> bool {
        self.shutdown
    }

    /// What every method keeps: keys are unique, and the index matches the
    /// entries' deadlines, one pair per key.
    pub closed spec fn wf(&self) -> bool {
        &&& entry_keys_unique(self.entries@)
        &&& exp_keys_unique(self.expirations@)
        &&& channel_names_unique(self.pub_sub@)
        &&& index_consistent(self.kv(), self.index())
    }
}


// ---------------------------------------------------------------------------
// Lemmas on the models
// ---------------------------------------------------------------------------

proof fn lemma_kv_of(s: Seq<(String, Entry)>)
    ensures
        forall|k: Seq<char>|
            #[trigger] kv_of(s).contains_key(k) <==> exists|i: int|
                0 <= i < s.len() && #[trigger] s[i].0@ == k,
        entry_keys_unique(s) ==> forall|i: int|
            0 <= i < s.len() ==> #[trigger] kv_of(s)[s[i].0@] == (s[i].1.data@, s[i].1.expires_at),
    decreases s.len(),
{
    if s.len() > 0 {
        let init = s.subrange(0, s.len() - 1);
        lemma_kv_of(init);
        let last = s[s.len() - 1];
        assert(kv_of(s) == kv_of(init).insert(last.0@, (last.1.data@, last.1.expires_at)));
        assert forall|k: Seq<char>| #[trigger] kv_of(s).contains_key(k) implies exists|i: int|
            0 <= i < s.len() && #[trigger] s[i].0@ == k by {
            if k != s[s.len() - 1].0@ {
                let i = choose|i: int| 0 <= i < init.len() && #[trigger] init[i].0@ == k;
                assert(s[i] == init[i]);
            }
        }
        assert forall|k: Seq<char>|
            (exists|i: int| 0 <= i < s.len() && #[trigger] s[i].0@ == k) implies #[trigger] kv_of(
            s,
        ).contains_key(k) by {
            let i = choose|i: int| 0 <= i < s.len() && #[trigger] s[i].0@ == k;
            if i < s.len() - 1 {
                assert(init[i] == s[i]);
            }
        }
        if entry_keys_unique(s) {
            assert forall|i: int| 0 <= i < s.len() implies #[trigger] kv_of(s)[s[i].0@] == (
                s[i].1.data@,
                s[i].1.expires_at,
            ) by {
                if i < s.len() - 1 {
                    assert(init[i] == s[i]);
                }
            }
        }
    }
}

proof fn lemma_kv_remove(s: Seq<(String, Entry)>, i: int)
    requires
        entry_keys_unique(s),
        0 <= i < s.len(),
    ensures
        kv_of(s.remove(i)) == kv_of(s).remove(s[i].0@),
        entry_keys_unique(s.remove(i)),
    decreases s.len(),
{
    let init = s.subrange(0, s.len() - 1);
    let last = s[s.len() - 1];
    if i == s.len() - 1 {
        assert(s.remove(i) =~= init);
        lemma_kv_of(init);
        assert(!kv_of(init).contains_key(last.0@)) by {
            if kv_of(init).contains_key(last.0@) {
                let j = choose|j: int| 0 <= j < init.len() && #[trigger] init[j].0@ == last.0@;
                assert(s[j] == init[j]);
            }
        }
        assert(kv_of(s).remove(last.0@) =~= kv_of(init));
    } else {
        lemma_kv_remove(init, i);
        assert(s.remove(i) =~= init.remove(i).push(last));
        assert(s.remove(i).subrange(0, s.remove(i).len() - 1) =~= init.remove(i));
        assert(init[i] == s[i]);
        assert(kv_of(s.remove(i)) =~= kv_of(s).remove(s[i].0@));
    }
}

proof fn lemma_kv_update(s: Seq<(String, Entry)>, i: int, x: (String, Entry))
    requires
        entry_keys_unique(s),
        0 <= i < s.len(),
        s[i].0@ == x.0@,
    ensures
        kv_of(s.update(i, x)) == kv_of(s).insert(x.0@, (x.1.data@, x.1.expires_at)),
        entry_keys_unique(s.update(i, x)),
    decreases s.len(),
{
    let init = s.subrange(0, s.len() - 1);
    let last = s[s.len() - 1];
    let u = s.update(i, x);
    assert(u.subrange(0, u.len() - 1) =~= if i == s.len() - 1 {
        init
    } else {
        init.update(i, x)
    });
    if i == s.len() - 1 {
        lemma_kv_of(init);
        assert(kv_of(u) =~= kv_of(s).insert(x.0@, (x.1.data@, x.1.expires_at)));
    } else {
        lemma_kv_update(init, i, x);
        assert(kv_of(u) =~= kv_of(s).insert(x.0@, (x.1.data@, x.1.expires_at)));
    }
}

proof fn lemma_exp_of(s: Seq<(u64, String)>)
    ensures
        forall|p: (u64, Seq<char>)|
            #[trigger] exp_of(s).contains(p) <==> exists|i: int|
                0 <= i < s.len() && (#[trigger] s[i]).0 == p.0 && s[i].1@ == p.1,
    decreases s.len(),
{
    if s.len() > 0 {
        let init = s.subrange(0, s.len() - 1);
        lemma_exp_of(init);
        assert(exp_of(s) == exp_of(init).insert((s[s.len() - 1].0, s[s.len() - 1].1@)));
        assert forall|p: (u64, Seq<char>)| #[trigger] exp_of(s).contains(p) implies exists|i: int|
            0 <= i < s.len() && (#[trigger] s[i]).0 == p.0 && s[i].1@ == p.1 by {
            let last = s[s.len() - 1];
            if p != (last.0, last.1@) {
                let i = choose|i: int|
                    0 <= i < init.len() && (#[trigger] init[i]).0 == p.0 && init[i].1@ == p.1;
                assert(s[i] == init[i]);
            }
        }
        assert forall|p: (u64, Seq<char>)|
            (exists|i: int|
                0 <= i < s.len() && (#[trigger] s[i]).0 == p.0 && s[i].1@
                    == p.1) implies #[trigger] exp_of(s).contains(p) by {
            let i = choose|i: int| 0 <= i < s.len() && (#[trigger] s[i]).0 == p.0 && s[i].1@ == p.1;
            if i < s.len() - 1 {
                assert(init[i] == s[i]);
            }
        }
    }
}

proof fn lemma_exp_remove(s: Seq<(u64, String)>, i: int)
    requires
        exp_keys_unique(s),
        0 <= i < s.len(),
    ensures
        exp_of(s.remove(i)) == exp_of(s).remove((s[i].0, s[i].1@)),
        exp_keys_unique(s.remove(i)),
    decreases s.len(),
{
    let init = s.subrange(0, s.len() - 1);
    let last = s[s.len() - 1];
    if i == s.len() - 1 {
        assert(s.remove(i) =~= init);
        lemma_exp_of(init);
        assert(!exp_of(init).contains((last.0, last.1@))) by {
            if exp_of(init).contains((last.0, last.1@)) {
                let j = choose|j: int|
                    0 <= j < init.len() && (#[trigger] init[j]).0 == last.0 && init[j].1@
                        == last.1@;
                assert(s[j] == init[j]);
            }
        }
        assert(exp_of(s).remove((last.0, last.1@)) =~= exp_of(init));
    } else {
        lemma_exp_remove(init, i);
        assert(s.remove(i) =~= init.remove(i).push(last));
        assert(s.remove(i).subrange(0, s.remove(i).len() - 1) =~= init.remove(i));
        assert(init[i] == s[i]);
        assert(exp_of(s.remove(i)) =~= exp_of(s).remove((s[i].0, s[i].1@)));
    }
}

proof fn lemma_channels_of<S>(s: Seq<(String, S)>)
    ensures
        forall|k: Seq<char>|
            #[trigger] channels_of(s).contains_key(k) <==> exists|i: int|
                0 <= i < s.len() && #[trigger] s[i].0@ == k,
        channel_names_unique(s) ==> forall|i: int|
            0 <= i < s.len() ==> #[trigger] channels_of(s)[s[i].0@] == s[i].1,
    decreases s.len(),
{
    if s.len() > 0 {
        let init = s.subrange(0, s.len() - 1);
        lemma_channels_of(init);
        assert(channels_of(s) == channels_of(init).insert(s[s.len() - 1].0@, s[s.len() - 1].1));
        assert forall|k: Seq<char>| #[trigger] channels_of(s).contains_key(k) implies exists|i: int|
            0 <= i < s.len() && #[trigger] s[i].0@ == k by {
            if k != s[s.len() - 1].0@ {
                let i = choose|i: int| 0 <= i < init.len() && #[trigger] init[i].0@ == k;
                assert(s[i] == init[i]);
            }
        }
        assert forall|k: Seq<char>|
            (exists|i: int| 0 <= i < s.len() && #[trigger] s[i].0@ == k) implies #[trigger] channels_of(
            s,
        ).contains_key(k) by {
            let i = choose|i: int| 0 <= i < s.len() && #[trigger] s[i].0@ == k;
            if i < s.len() - 1 {
                assert(init[i] == s[i]);
            }
        }
        if channel_names_unique(s) {
            assert forall|i: int| 0 <= i < s.len() implies #[trigger] channels_of(s)[s[i].0@]
                == s[i].1 by {
                if i < s.len() - 1 {
                    assert(init[i] == s[i]);
                }
            }
        }
    }
}


proof fn lemma_push_fresh_entry(s: Seq<(String, Entry)>, x: (String, Entry))
    requires
        entry_keys_unique(s),
        !kv_of(s).contains_key(x.0@),
    ensures
        entry_keys_unique(s.push(x)),
        kv_of(s.push(x)) == kv_of(s).insert(x.0@, (x.1.data@, x.1.expires_at)),
{
    lemma_kv_of(s);
    assert(s.push(x).subrange(0, s.len() as int) =~= s);
    assert forall|i: int, j: int| 0 <= i < j < s.push(x).len() implies s.push(x)[i].0@ != s.push(
        x,
    )[j].0@ by {
        if j == s.len() {
            assert(s.push(x)[i] == s[i]);
        } else {
            assert(s.push(x)[i] == s[i]);
            assert(s.push(x)[j] == s[j]);
        }
    }
}

proof fn lemma_push_pair(s: Seq<(u64, String)>, x: (u64, String))
    requires
        exp_keys_unique(s),
        forall|i: int| 0 <= i < s.len() ==> (#[trigger] s[i]).1@ != x.1@,
    ensures
        exp_keys_unique(s.push(x)),
        exp_of(s.push(x)) == exp_of(s).insert((x.0, x.1@)),
{
    assert(s.push(x).subrange(0, s.len() as int) =~= s);
    assert forall|i: int, j: int| 0 <= i < j < s.push(x).len() implies s.push(x)[i].1@ != s.push(
        x,
    )[j].1@ by {
        assert(s.push(x)[i] == s[i]);
        if j < s.len() {
            assert(s.push(x)[j] == s[j]);
        }
    }
}

proof fn lemma_index_keys_unique(kv: Map<Seq<char>, EntryView>, exp: Set<(u64, Seq<char>)>)
    requires
        index_consistent(kv, exp),
    ensures
        index_keys_unique(exp),
{
}

/// The deadline that an expiry of `expire` milliseconds set at `now` gives.
pub open spec fn expire_at(expire: Option<u64>, now: u64) -> Option<u64> {
    match expire {
        Some(d) => Some(deadline(now, d)),
        None => None,
    }
}

impl<S> State<S> {
    /// An empty store: no keys, no deadlines, no channels, not shut down.
    pub fn new() -> (r: State<S>)
        ensures
            r.wf(),
            r.kv() == Map::<Seq<char>, EntryView>::empty(),
            index_empty(r.index()),
            r.channels() == Map::<Seq<char>, S>::empty(),
            !r.is_shut_down(),
    {
        State { entries: Vec::new(), expirations: Vec::new(), pub_sub: Vec::new(), shutdown: false }
    }

    fn find_entry(&self, key: &String) -> (r: Option<usize>)
        requires
            entry_keys_unique(self.entries@),
        ensures
            match r {
                Some(i) => i < self.entries@.len() && self.entries@[i as int].0@ == key@,
                None => !self.kv().contains_key(key@),
            },
    {
        proof {
            lemma_kv_of(self.entries@);
        }
        let mut i: usize = 0;
        while i < self.entries.len()
            invariant
                i <= self.entries@.len(),
                forall|k: int| 0 <= k < i ==> (#[trigger] self.entries@[k]).0@ != key@,
            decreases self.entries@.len() - i,
        {
            if self.entries[i].0 == *key {
                return Some(i);
            }
            i = i + 1;
        }
        None
    }

    fn find_expiration(&self, key: &String) -> (r: Option<usize>)
        ensures
            match r {
                Some(j) => j < self.expirations@.len() && self.expirations@[j as int].1@ == key@,
                None => forall|i: int|
                    0 <= i < self.expirations@.len() ==> (#[trigger] self.expirations@[i]).1@
                        != key@,
            },
    {
        let mut i: usize = 0;
        while i < self.expirations.len()
            invariant
                i <= self.expirations@.len(),
                forall|k: int| 0 <= k < i ==> (#[trigger] self.expirations@[k]).1@ != key@,
            decreases self.expirations@.len() - i,
        {
            if self.expirations[i].1 == *key {
                return Some(i);
            }
            i = i + 1;
        }
        None
    }

    fn earliest_index(&self) -> (r: Option<usize>)
        ensures
            match r {
                Some(j) => j < self.expirations@.len() && is_earliest(
                    self.index(),
                    self.expirations@[j as int].0,
                ),
                None => index_empty(self.index()),
            },
    {
        proof {
            lemma_exp_of(self.expirations@);
        }
        if self.expirations.len() == 0 {
            return None;
        }
        let mut best: usize = 0;
        let mut i: usize = 1;
        while i < self.expirations.len()
            invariant
                best < i <= self.expirations@.len(),
                forall|k: int|
                    0 <= k < i ==> self.expirations@[best as int].0 <= (#[trigger] self.expirations@[k]).0,
            decreases self.expirations@.len() - i,
        {
            if self.expirations[i].0 < self.expirations[best].0 {
                best = i;
            }
            i = i + 1;
        }
        proof {
            let e = self.expirations@[best as int];
            assert(self.index().contains((e.0, e.1@)));
        }
        Some(best)
    }

    /// The earliest deadline in the index, if there is one.
    pub fn next_expiration(&self) -> (r: Option<u64>)
        ensures
            next_of(self.index(), r),
    {
        match self.earliest_index() {
            Some(j) => Some(self.expirations[j].0),
            None => None,
        }
    }

    /// The value stored under `key`.
    pub fn get(&self, key: &str) -> (r: Option<Vec<u8>>)
        requires
            self.wf(),
        ensures
            self.kv().contains_key(key@) ==> r is Some && r->0@ == self.kv()[key@].0,
            !self.kv().contains_key(key@) ==> r is None,
    {
        let k = key.to_owned();
        match self.find_entry(&k) {
            Some(i) => {
                proof {
                    lemma_kv_of(self.entries@);
                }
                Some(slice_to_vec(self.entries[i].1.data.as_slice()))
            },
            None => None,
        }
    }

    /// Stores `value` under `key`, replacing what was there, to expire
    /// `expire` milliseconds after `now` if that is given. Returns whether
    /// the new deadline comes before every deadline already in the index,
    /// in which case whoever waits for the next deadline must look again.
    pub fn set(&mut self, key: String, value: Vec<u8>, expire: Option<u64>, now: u64) -> (notify:
        bool)
        requires
            old(self).wf(),
        ensures
            final(self).wf(),
            final(self).kv() == old(self).kv().insert(key@, (value@, expire_at(expire, now))),
            final(self).channels() == old(self).channels(),
            final(self).is_shut_down() == old(self).is_shut_down(),
            notify == match expire_at(expire, now) {
                Some(t) => forall|p: (u64, Seq<char>)|
                    #[trigger] old(self).index().contains(p) ==> t < p.0,
                None => false,
            },
    {
        let expires_at = match expire {
            Some(d) => Some(now.saturating_add(d)),
            None => None,
        };
        let notify = match expires_at {
            Some(t) => match self.next_expiration() {
                Some(e) => e > t,
                None => true,
            },
            None => false,
        };
        let ghost kv0 = self.kv();
        let ghost idx0 = self.index();
        proof {
            lemma_exp_of(self.expirations@);
            lemma_index_keys_unique(kv0, idx0);
        }
        // Drop the key's old deadline from the index.
        match self.find_expiration(&key) {
            Some(j) => {
                proof {
                    lemma_exp_remove(self.expirations@, j as int);
                }
                self.expirations.remove(j);
            },
            None => {},
        }
        let ghost idx1 = self.index();
        proof {
            lemma_exp_of(self.expirations@);
            assert forall|p: (u64, Seq<char>)| #[trigger] idx1.contains(p) <==> idx0.contains(p)
                && p.1 != key@ by {}
            assert forall|i: int| 0 <= i < self.expirations@.len() implies (
            #[trigger] self.expirations@[i]).1@ != key@ by {
                let e = self.expirations@[i];
                assert(idx1.contains((e.0, e.1@)));
            }
        }
        let entry = Entry { data: value, expires_at };
        match self.find_entry(&key) {
            Some(i) => {
                proof {
                    lemma_kv_update(self.entries@, i as int, (key, entry));
                }
                self.entries.set(i, (key.clone(), entry));
            },
            None => {
                proof {
                    lemma_push_fresh_entry(self.entries@, (key, entry));
                }
                self.entries.push((key.clone(), entry));
            },
        }
        match expires_at {
            Some(t) => {
                proof {
                    lemma_push_pair(self.expirations@, (t, key));
                }
                self.expirations.push((t, key));
            },
            None => {},
        }
        proof {
            let kv1 = self.kv();
            let idx2 = self.index();
            assert(kv1 == kv0.insert(key@, (value@, expires_at)));
            assert forall|k: Seq<char>, t: u64|
                kv1.contains_key(k) && kv1[k].1 == Some(t) implies #[trigger] idx2.contains(
                (t, k),
            ) by {
                if k != key@ {
                    assert(idx0.contains((t, k)));
                }
            }
            assert forall|p: (u64, Seq<char>)| #[trigger] idx2.contains(p) implies kv1.contains_key(
                p.1,
            ) && kv1[p.1].1 == Some(p.0) by {
                if p.1 != key@ {
                    assert(idx1.contains(p));
                }
            }
        }
        notify
    }

    /// Removes every entry whose deadline is not after `now`, and returns
    /// the earliest deadline left. Does nothing, and returns nothing, once
    /// the store is shut down.
    pub fn purge_expired_keys(&mut self, now: u64) -> (r: Option<u64>)
        requires
            old(self).wf(),
        ensures
            final(self).wf(),
            final(self).channels() == old(self).channels(),
            final(self).is_shut_down() == old(self).is_shut_down(),
            old(self).is_shut_down() ==> r is None && final(self).kv() == old(self).kv(),
            !old(self).is_shut_down() ==> {
                &&& forall|k: Seq<char>|
                    #[trigger] final(self).kv().contains_key(k) <==> old(self).kv().contains_key(k)
                        && !expired(old(self).kv()[k].1, now)
                &&& forall|k: Seq<char>|
                    #[trigger] final(self).kv().contains_key(k) ==> final(self).kv()[k] == old(
                        self,
                    ).kv()[k]
                &&& next_of(final(self).index(), r)
                &&& final(self).kv() == purged(old(self).kv(), now)
            },
    {
        if self.shutdown {
            return None;
        }
        let ghost kv0 = self.kv();
        loop
            invariant
                self.wf(),
                self.channels() == old(self).channels(),
                self.is_shut_down() == old(self).is_shut_down(),
                !self.shutdown,
                kv0 == old(self).kv(),
                forall|k: Seq<char>|
                    #[trigger] self.kv().contains_key(k) ==> kv0.contains_key(k) && self.kv()[k]
                        == kv0[k],
                forall|k: Seq<char>|
                    #[trigger] kv0.contains_key(k) && !expired(kv0[k].1, now)
                        ==> self.kv().contains_key(k),
            decreases self.expirations@.len(),
        {
            match self.earliest_index() {
                None => {
                    proof {
                        assert forall|k: Seq<char>| #[trigger] self.kv().contains_key(k) implies !expired(
                            kv0[k].1,
                            now,
                        ) by {
                            if let Some(t) = self.kv()[k].1 {
                                assert(self.index().contains((t, k)));
                            }
                        }
                        assert(self.kv() =~= purged(kv0, now));
                    }
                    return None;
                },
                Some(j) => {
                    let t = self.expirations[j].0;
                    if t > now {
                        proof {
                            assert forall|k: Seq<char>|
                                #[trigger] self.kv().contains_key(k) implies !expired(
                                kv0[k].1,
                                now,
                            ) by {
                                if let Some(t2) = self.kv()[k].1 {
                                    assert(self.index().contains((t2, k)));
                                }
                            }
                            assert(self.kv() =~= purged(kv0, now));
                        }
                        return Some(t);
                    }
                    let key = self.expirations[j].1.clone();
                    let ghost kv1 = self.kv();
                    let ghost idx1 = self.index();
                    proof {
                        lemma_exp_of(self.expirations@);
                        lemma_index_keys_unique(kv1, idx1);
                        assert(idx1.contains((t, key@)));
                    }
                    match self.find_entry(&key) {
                        Some(i) => {
                            proof {
                                lemma_kv_of(self.entries@);
                                lemma_kv_remove(self.entries@, i as int);
                            }
                            self.entries.remove(i);
                        },
                        None => {},
                    }
                    proof {
                        lemma_exp_remove(self.expirations@, j as int);
                    }
                    self.expirations.remove(j);
                    proof {
                        let kv2 = self.kv();
                        let idx2 = self.index();
                        assert(kv2 == kv1.remove(key@));
                        assert(idx2 == idx1.remove((t, key@)));
                        assert forall|p: (u64, Seq<char>)| #[trigger] idx2.contains(p) implies kv2.contains_key(
                            p.1,
                        ) && kv2[p.1].1 == Some(p.0) by {
                            assert(idx1.contains(p));
                        }
                    }
                },
            }
        }
    }

    /// Marks the store as shut down; purging stops from then on.
    pub fn shutdown_purge_task(&mut self)
        requires
            old(self).wf(),
        ensures
            final(self).wf(),
            final(self).is_shut_down(),
            final(self).kv() == old(self).kv(),
            final(self).index() == old(self).index(),
            final(self).channels() == old(self).channels(),
    {
        self.shutdown = true;
    }

    /// Whether the store is shut down.
    pub fn is_shutdown(&self) -> (r: bool)
        ensures
            r == self.is_shut_down(),
    {
        self.shutdown
    }

    /// The sender of the channel named `name`, if it has one.
    pub fn channel(&self, name: &str) -> (r: Option<&S>)
        requires
            self.wf(),
        ensures
            self.channels().contains_key(name@) ==> r is Some && *r->0 == self.channels()[name@],
            !self.channels().contains_key(name@) ==> r is None,
    {
        proof {
            lemma_channels_of(self.pub_sub@);
        }
        let owned = name.to_owned();
        let k = &owned;
        let mut i: usize = 0;
        while i < self.pub_sub.len()
            invariant
                k@ == name@,
                channel_names_unique(self.pub_sub@),
                i <= self.pub_sub@.len(),
                forall|j: int| 0 <= j < i ==> (#[trigger] self.pub_sub@[j]).0@ != name@,
            decreases self.pub_sub@.len() - i,
        {
            if self.pub_sub[i].0 == *k {
                proof {
                    lemma_channels_of(self.pub_sub@);
                    assert(self.channels()[self.pub_sub@[i as int].0@] == self.pub_sub@[i as int].1);
                }
                return Some(&self.pub_sub[i].1);
            }
            i = i + 1;
        }
        None
    }

    /// Registers the sender of a channel that has none yet.
    pub fn add_channel(&mut self, name: String, sender: S)
        requires
            old(self).wf(),
            !old(self).channels().contains_key(name@),
        ensures
            final(self).wf(),
            final(self).channels() == old(self).channels().insert(name@, sender),
            final(self).kv() == old(self).kv(),
            final(self).index() == old(self).index(),
            final(self).is_shut_down() == old(self).is_shut_down(),
    {
        proof {
            lemma_channels_of(self.pub_sub@);
            let s = self.pub_sub@.push((name, sender));
            assert(s.subrange(0, self.pub_sub@.len() as int) =~= self.pub_sub@);
            assert forall|i: int, j: int| 0 <= i < j < s.len() implies s[i].0@ != s[j].0@ by {
                assert(s[i] == self.pub_sub@[i]);
                if j < self.pub_sub@.len() {
                    assert(s[j] == self.pub_sub@[j]);
                }
            }
        }
        self.pub_sub.push((name, sender));
    }
}


// ---------------------------------------------------------------------------
// Laws
// ---------------------------------------------------------------------------

/// The map after a run of `set`s, each storing its value under its key.
pub open spec fn after_sets(
    kv: Map<Seq<char>, EntryView>,
    sets: Seq<(Seq<char>, EntryView)>,
) -> Map<Seq<char>, EntryView>
    decreases sets.len(),
{
    if sets.len() == 0 {
        kv
    } else {
        after_sets(kv, sets.subrange(0, sets.len() - 1)).insert(
            sets[sets.len() - 1].0,
            sets[sets.len() - 1].1,
        )
    }
}

/// A value stored without expiry under `k` is what `get(k)` returns after
/// any run of `set`s on other keys.
pub proof fn law_set_then_get(
    kv: Map<Seq<char>, EntryView>,
    k: Seq<char>,
    v: Seq<u8>,
    sets: Seq<(Seq<char>, EntryView)>,
)
    requires
        forall|i: int| 0 <= i < sets.len() ==> (#[trigger] sets[i]).0 != k,
    ensures
        after_sets(kv.insert(k, (v, None)), sets).contains_key(k),
        after_sets(kv.insert(k, (v, None)), sets)[k].0 == v,
    decreases sets.len(),
{
    if sets.len() > 0 {
        let init = sets.subrange(0, sets.len() - 1);
        assert forall|i: int| 0 <= i < init.len() implies (#[trigger] init[i]).0 != k by {
            assert(init[i] == sets[i]);
        }
        law_set_then_get(kv, k, v, init);
        assert(sets[sets.len() - 1].0 != k);
    }
}

/// A value without expiry is never purged.
pub proof fn law_no_expiry_kept(now: u64)
    ensures
        !expired(None, now),
{
}

/// A value stored with an expiry of `d > 0` milliseconds at `now` is kept
/// by a purge at any instant before its deadline, and removed by a purge
/// at or after it; the deadline is past `now`.
pub proof fn law_expiry(
    kv: Map<Seq<char>, EntryView>,
    k: Seq<char>,
    v: Seq<u8>,
    now: u64,
    d: u64,
    later: u64,
)
    requires
        d > 0,
        now < u64::MAX,
    ensures
        ({
            let stored = kv.insert(k, (v, expire_at(Some(d), now)));
            &&& stored[k].0 == v
            &&& deadline(now, d) > now
            &&& later < deadline(now, d) ==> !expired(stored[k].1, later)
            &&& later >= deadline(now, d) ==> expired(stored[k].1, later)
        }),
{
}

/// At every point between calls the index holds exactly one pair
/// `(deadline, key)` for each key with a deadline, none for a key without
/// one, and no key twice.
pub proof fn law_index_invariants<S>(st: &State<S>)
    requires
        st.wf(),
    ensures
        index_consistent(st.kv(), st.index()),
        index_keys_unique(st.index()),
        forall|p: (u64, Seq<char>)|
            #[trigger] st.index().contains(p) ==> st.kv().contains_key(p.1) && !(st.kv()[p.1].1 is None),
{
    lemma_index_keys_unique(st.kv(), st.index());
}

proof fn lemma_after_sets_keeps(
    kv: Map<Seq<char>, EntryView>,
    k: Seq<char>,
    e: EntryView,
    sets: Seq<(Seq<char>, EntryView)>,
)
    requires
        forall|i: int| 0 <= i < sets.len() ==> (#[trigger] sets[i]).0 != k,
    ensures
        after_sets(kv.insert(k, e), sets).contains_key(k),
        after_sets(kv.insert(k, e), sets)[k] == e,
    decreases sets.len(),
{
    if sets.len() > 0 {
        let init = sets.subrange(0, sets.len() - 1);
        assert forall|i: int| 0 <= i < init.len() implies (#[trigger] init[i]).0 != k by {
            assert(init[i] == sets[i]);
        }
        lemma_after_sets_keeps(kv, k, e, init);
        assert(sets[sets.len() - 1].0 != k);
    }
}

/// The map that a purge at `now` leaves: the entries not expired at `now`.
pub open spec fn purged(kv: Map<Seq<char>, EntryView>, now: u64) -> Map<Seq<char>, EntryView> {
    Map::new(|k: Seq<char>| kv.contains_key(k) && !expired(kv[k].1, now), |k: Seq<char>| kv[k])
}

/// A value stored at `t0` with an expiry of `d` milliseconds, followed by
/// any run of `set`s on other keys, survives a purge at any instant before
/// its deadline, and is gone after a purge at or past it.
pub proof fn law_expiry_after_traffic(
    kv: Map<Seq<char>, EntryView>,
    k: Seq<char>,
    v: Seq<u8>,
    t0: u64,
    d: u64,
    sets: Seq<(Seq<char>, EntryView)>,
    now: u64,
)
    requires
        forall|i: int| 0 <= i < sets.len() ==> (#[trigger] sets[i]).0 != k,
    ensures
        ({
            let stored = after_sets(kv.insert(k, (v, expire_at(Some(d), t0))), sets);
            &&& now < deadline(t0, d) ==> purged(stored, now).contains_key(k) && purged(
                stored,
                now,
            )[k].0 == v
            &&& now >= deadline(t0, d) ==> !purged(stored, now).contains_key(k)
        }),
{
    lemma_after_sets_keeps(kv, k, (v, expire_at(Some(d), t0)), sets);
}

} // verus!
