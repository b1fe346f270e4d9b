//! Per-key debouncing: coalesces bursts of arrivals for a key into a single
//! pending deadline, so that the key fires once after it has been quiet for
//! the configured delay.

use vstd::prelude::*;

verus! {

/// One pending notification: a key and the instant (in milliseconds) at
/// which it falls due.
struct Entry {
    key: String,
    deadline: u64,
}

/// The pending map after an arrival of `key` at time `now`: the key's
/// deadline becomes `now + delay`; every other key is untouched.
pub open spec fn put_model(
    m: Map<Seq<char>, int>,
    key: Seq<char>,
    now: int,
    delay: int,
) -> Map<Seq<char>, int> {
    m.insert(key, now + delay)
}

/// The pending map after the keys due at `now` have fired: exactly the
/// entries whose deadline lies strictly after `now` remain, unchanged.
pub open spec fn fire_model(m: Map<Seq<char>, int>, now: int) -> Map<Seq<char>, int> {
    Map::<Seq<char>, int>::new(|k: Seq<char>| m.dom().contains(k) && m[k] > now, |k: Seq<char>| m[k])
}

spec fn distinct_keys(s: Seq<Entry>) -> bool {
    forall|i: int, j: int| 0 <= i < j < s.len() ==> s[i].key@ != s[j].key@
}

spec fn entries_map(s: Seq<Entry>) -> Map<Seq<char>, int>
    decreases s.len(),
{
    if s.len() == 0 {
        Map::empty()
    } else {
        entries_map(s.drop_last()).insert(s.last().key@, s.last().deadline as int)
    }
}

proof fn lemma_entries_map_contains(s: Seq<Entry>, k: Seq<char>)
    ensures
        entries_map(s).dom().contains(k) <==> (exists|i: int|
            0 <= i < s.len() && #[trigger] s[i].key@ == k),
    decreases s.len(),
{
    if s.len() > 0 {
        lemma_entries_map_contains(s.drop_last(), k);
        if s.last().key@ == k {
            assert(s[s.len() - 1].key@ == k);
        } else if entries_map(s).dom().contains(k) {
            let i = choose|i: int| 0 <= i < s.drop_last().len() && #[trigger] s.drop_last()[i].key@ == k;
            assert(s[i].key@ == k);
        } else if exists|i: int| 0 <= i < s.len() && #[trigger] s[i].key@ == k {
            let i = choose|i: int| 0 <= i < s.len() && #[trigger] s[i].key@ == k;
            assert(s.drop_last()[i].key@ == k);
        }
    }
}

proof fn lemma_entries_map_value(s: Seq<Entry>, i: int)
    requires
        distinct_keys(s),
        0 <= i < s.len(),
    ensures
        entries_map(s).dom().contains(s[i].key@),
        entries_map(s)[s[i].key@] == s[i].deadline as int,
    decreases s.len(),
{
    if i < s.len() - 1 {
        lemma_entries_map_value(s.drop_last(), i);
        assert(s.drop_last()[i] == s[i]);
        assert(s[i].key@ != s.last().key@);
    }
}

proof fn lemma_entries_map_push(s: Seq<Entry>, e: Entry)
    ensures
        entries_map(s.push(e)) == entries_map(s).insert(e.key@, e.deadline as int),
{
    assert(s.push(e).drop_last() =~= s);
    assert(s.push(e).last() == e);
}

proof fn lemma_entries_map_update(s: Seq<Entry>, i: int, e: Entry)
    requires
        distinct_keys(s),
        0 <= i < s.len(),
        e.key@ == s[i].key@,
    ensures
        entries_map(s.update(i, e)) == entries_map(s).insert(e.key@, e.deadline as int),
        distinct_keys(s.update(i, e)),
    decreases s.len(),
{
    let t = s.update(i, e);
    if i == s.len() - 1 {
        assert(t.drop_last() =~= s.drop_last());
        assert(t.last() == e);
        assert(entries_map(s).insert(e.key@, e.deadline as int) =~= entries_map(
            s.drop_last(),
        ).insert(e.key@, e.deadline as int));
    } else {
        assert(t.drop_last() =~= s.drop_last().update(i, e));
        assert(s.drop_last()[i] == s[i]);
        lemma_entries_map_update(s.drop_last(), i, e);
        assert(t.last() == s.last());
        assert(e.key@ != s.last().key@);
        assert(entries_map(s.drop_last()).insert(e.key@, e.deadline as int).insert(
            s.last().key@,
            s.last().deadline as int,
        ) =~= entries_map(s.drop_last()).insert(s.last().key@, s.last().deadline as int).insert(
            e.key@,
            e.deadline as int,
        ));
    }
}

proof fn lemma_fire_view(
    s: Seq<Entry>,
    kept: Seq<Entry>,
    fired: Seq<String>,
    ks: Seq<int>,
    fs: Seq<int>,
    now: int,
)
    requires
        distinct_keys(s),
        ks.len() == kept.len(),
        fs.len() == fired.len(),
        forall|a: int|
            0 <= a < ks.len() ==> 0 <= #[trigger] ks[a] < s.len() && kept[a] == s[ks[a]]
                && s[ks[a]].deadline > now,
        forall|a: int, b: int| 0 <= a < b < ks.len() ==> ks[a] < ks[b],
        forall|b: int|
            0 <= b < s.len() && s[b].deadline > now ==> (exists|a: int|
                0 <= a < ks.len() && #[trigger] ks[a] == b),
        forall|a: int|
            0 <= a < fs.len() ==> 0 <= #[trigger] fs[a] < s.len() && fired[a]@ == s[fs[a]].key@
                && s[fs[a]].deadline <= now,
        forall|a: int, b: int| 0 <= a < b < fs.len() ==> fs[a] < fs[b],
        forall|b: int|
            0 <= b < s.len() && s[b].deadline <= now ==> (exists|a: int|
                0 <= a < fs.len() && #[trigger] fs[a] == b),
    ensures
        distinct_keys(kept),
        entries_map(kept) == fire_model(entries_map(s), now),
        forall|a: int, b: int| 0 <= a < b < fired.len() ==> fired[a]@ != fired[b]@,
        forall|a: int|
            0 <= a < fired.len() ==> entries_map(s).dom().contains(#[trigger] fired[a]@)
                && entries_map(s)[fired[a]@] <= now,
        forall|k: Seq<char>|
            entries_map(s).dom().contains(k) && entries_map(s)[k] <= now ==> (exists|a: int|
                0 <= a < fired.len() && #[trigger] fired[a]@ == k),
{
    assert forall|a: int, b: int| 0 <= a < b < kept.len() implies kept[a].key@ != kept[b].key@ by {
        assert(0 <= ks[a] < ks[b] < s.len());
    }
    assert forall|a: int, b: int| 0 <= a < b < fired.len() implies fired[a]@ != fired[b]@ by {
        assert(0 <= fs[a] < fs[b] < s.len());
    }
    assert forall|k: Seq<char>| entries_map(kept).dom().contains(k) <==> fire_model(
        entries_map(s),
        now,
    ).dom().contains(k) by {
        lemma_entries_map_contains(kept, k);
        lemma_entries_map_contains(s, k);
        if exists|a: int| 0 <= a < kept.len() && #[trigger] kept[a].key@ == k {
            let a = choose|a: int| 0 <= a < kept.len() && #[trigger] kept[a].key@ == k;
            assert(kept[a] == s[ks[a]]);
            lemma_entries_map_value(s, ks[a]);
        } else if exists|b: int| 0 <= b < s.len() && #[trigger] s[b].key@ == k {
            let b = choose|b: int| 0 <= b < s.len() && #[trigger] s[b].key@ == k;
            lemma_entries_map_value(s, b);
            if s[b].deadline > now {
                let a = choose|a: int| 0 <= a < ks.len() && #[trigger] ks[a] == b;
                assert(kept[a].key@ == k);
            }
        }
    }
    assert forall|k: Seq<char>| entries_map(kept).dom().contains(k) implies entries_map(kept)[k]
        == fire_model(entries_map(s), now)[k] by {
        lemma_entries_map_contains(kept, k);
        let a = choose|a: int| 0 <= a < kept.len() && #[trigger] kept[a].key@ == k;
        lemma_entries_map_value(kept, a);
        assert(kept[a] == s[ks[a]]);
        lemma_entries_map_value(s, ks[a]);
    }
    assert(entries_map(kept) =~= fire_model(entries_map(s), now));
    assert forall|a: int| 0 <= a < fired.len() implies entries_map(s).dom().contains(
        #[trigger] fired[a]@,
    ) && entries_map(s)[fired[a]@] <= now by {
        assert(0 <= fs[a] < s.len());
        lemma_entries_map_value(s, fs[a]);
    }
    assert forall|k: Seq<char>| entries_map(s).dom().contains(k) && entries_map(s)[k]
        <= now implies (exists|a: int| 0 <= a < fired.len() && #[trigger] fired[a]@ == k) by {
        lemma_entries_map_contains(s, k);
        let b = choose|b: int| 0 <= b < s.len() && #[trigger] s[b].key@ == k;
        lemma_entries_map_value(s, b);
        let a = choose|a: int| 0 <= a < fs.len() && #[trigger] fs[a] == b;
        assert(fired[a]@ == k);
    }
}

/// Coalesces repeated arrivals per key: each arrival of a key resets that
/// key's deadline to the arrival time plus the configured delay, and a key
/// leaves the pending map only when it fires or on shutdown. At most one
/// deadline is pending per key at any instant.
///
/// Time is a caller-supplied monotonic reading in milliseconds; the view
/// `self@` is the pending map from key to deadline.
pub struct Debouncer {
    delay: u64,
    entries: Vec<Entry>,
}

impl View for Debouncer {
    type V = Map<Seq<char>, int>;

    closed spec fn view(&self) -> Map<Seq<char>, int> {
        entries_map(self.entries@)
    }
}

impl Debouncer {
    /// Internal well-formedness: no key appears twice.
    pub closed spec fn wf(&self) -> bool {
        distinct_keys(self.entries@)
    }

    /// The configured quiescence delay, in milliseconds.
    pub closed spec fn delay(&self) -> int {
        self.delay as int
    }

    /// A debouncer with the given quiescence delay and nothing pending.
    pub fn new(delay: u64) -> (d: Debouncer)
        ensures
            d.wf(),
            d.delay() == delay as int,
            d@ == Map::<Seq<char>, int>::empty(),
    {
        Debouncer { delay, entries: Vec::new() }
    }

    /// Records an arrival of `key` at time `now`: the key's deadline becomes
    /// `now + delay`, replacing any deadline it had; other keys keep theirs.
    pub fn put(&mut self, key: String, now: u64)
        requires
            old(self).wf(),
            now + old(self).delay() <= u64::MAX,
        ensures
            final(self).wf(),
            final(self).delay() == old(self).delay(),
            final(self)@ == put_model(old(self)@, key@, now as int, old(self).delay()),
    {
        let deadline: u64 = now + self.delay;
        let n: usize = self.entries.len();
        let mut i: usize = 0;
        while i < n
            invariant
                i <= n,
                n == self.entries@.len(),
                *self == *old(self),
                distinct_keys(self.entries@),
                deadline == now + old(self).delay(),
                forall|j: int| 0 <= j < i ==> self.entries@[j].key@ != key@,
            decreases n - i,
        {
            if self.entries[i].key == key {
                let ghost s0 = self.entries@;
                self.entries[i] = Entry { key, deadline };
                proof {
                    lemma_entries_map_update(s0, i as int, self.entries@[i as int]);
                }
                return ;
            }
            i += 1;
        }
        proof {
            lemma_entries_map_contains(self.entries@, key@);
            lemma_entries_map_push(self.entries@, Entry { key, deadline });
        }
        self.entries.push(Entry { key, deadline });
    }

    /// Removes and returns the keys due at `now`: every key whose deadline is
    /// at or before `now` appears exactly once in the result, and exactly the
    /// later deadlines stay pending.
    pub fn fire(&mut self, now: u64) -> (fired: Vec<String>)
        requires
            old(self).wf(),
        ensures
            final(self).wf(),
            final(self).delay() == old(self).delay(),
            final(self)@ == fire_model(old(self)@, now as int),
            forall|a: int, b: int| 0 <= a < b < fired@.len() ==> fired@[a]@ != fired@[b]@,
            forall|a: int|
                0 <= a < fired@.len() ==> old(self)@.dom().contains(#[trigger] fired@[a]@)
                    && old(self)@[fired@[a]@] <= now,
            forall|k: Seq<char>|
                old(self)@.dom().contains(k) && old(self)@[k] <= now ==> (exists|a: int|
                    0 <= a < fired@.len() && #[trigger] fired@[a]@ == k),
    {
        let n: usize = self.entries.len();
        let mut kept: Vec<Entry> = Vec::new();
        let mut fired: Vec<String> = Vec::new();
        let ghost mut ks: Seq<int> = Seq::empty();
        let ghost mut fs: Seq<int> = Seq::empty();
        let mut i: usize = 0;
        while i < n
            invariant
                i <= n,
                n == self.entries@.len(),
                *self == *old(self),
                distinct_keys(self.entries@),
                ks.len() == kept@.len(),
                fs.len() == fired@.len(),
                forall|a: int|
                    0 <= a < ks.len() ==> 0 <= #[trigger] ks[a] < i && kept@[a]
                        == self.entries@[ks[a]] && self.entries@[ks[a]].deadline > now,
                forall|a: int, b: int| 0 <= a < b < ks.len() ==> ks[a] < ks[b],
                forall|b: int|
                    0 <= b < i && self.entries@[b].deadline > now ==> (exists|a: int|
                        0 <= a < ks.len() && #[trigger] ks[a] == b),
                forall|a: int|
                    0 <= a < fs.len() ==> 0 <= #[trigger] fs[a] < i && fired@[a]@
                        == self.entries@[fs[a]].key@ && self.entries@[fs[a]].deadline <= now,
                forall|a: int, b: int| 0 <= a < b < fs.len() ==> fs[a] < fs[b],
                forall|b: int|
                    0 <= b < i && self.entries@[b].deadline <= now ==> (exists|a: int|
                        0 <= a < fs.len() && #[trigger] fs[a] == b),
            decreases n - i,
        {
            let e = &self.entries[i];
            if e.deadline <= now {
                fired.push(e.key.clone());
                proof {
                    let fs0 = fs;
                    fs = fs.push(i as int);
                    assert forall|b: int|
                        0 <= b < i + 1 && self.entries@[b].deadline <= now implies (exists|a: int|
                        0 <= a < fs.len() && #[trigger] fs[a] == b) by {
                        if b == i {
                            assert(fs[fs.len() - 1] == b);
                        } else {
                            let a = choose|a: int| 0 <= a < fs0.len() && #[trigger] fs0[a] == b;
                            assert(fs[a] == b);
                        }
                    }
                }
            } else {
                kept.push(Entry { key: e.key.clone(), deadline: e.deadline });
                proof {
                    let ks0 = ks;
                    ks = ks.push(i as int);
                    assert forall|b: int|
                        0 <= b < i + 1 && self.entries@[b].deadline > now implies (exists|a: int|
                        0 <= a < ks.len() && #[trigger] ks[a] == b) by {
                        if b == i {
                            assert(ks[ks.len() - 1] == b);
                        } else {
                            let a = choose|a: int| 0 <= a < ks0.len() && #[trigger] ks0[a] == b;
                            assert(ks[a] == b);
                        }
                    }
                }
            }
            i += 1;
        }
        let ghost s = self.entries@;
        self.entries = kept;
        proof {
            lemma_fire_view(s, self.entries@, fired@, ks, fs, now as int);
        }
        fired
    }

    /// The earliest pending deadline, or `None` when nothing is pending.
    pub fn next_deadline(&self) -> (r: Option<u64>)
        requires
            self.wf(),
        ensures
            match r {
                None => self@ == Map::<Seq<char>, int>::empty(),
                Some(t) => (exists|k: Seq<char>| self@.dom().contains(k) && self@[k] == t as int)
                    && (forall|k: Seq<char>|
                    self@.dom().contains(k) ==> self@[k] >= t as int),
            },
    {
        let n: usize = self.entries.len();
        if n == 0 {
            proof {
                assert(self@ =~= Map::<Seq<char>, int>::empty());
            }
            return None;
        }
        let mut best: u64 = self.entries[0].deadline;
        let mut i: usize = 1;
        while i < n
            invariant
                1 <= i <= n,
                n == self.entries@.len(),
                exists|b: int| 0 <= b < i && #[trigger] self.entries@[b].deadline == best,
                forall|b: int| 0 <= b < i ==> #[trigger] self.entries@[b].deadline >= best,
            decreases n - i,
        {
            if self.entries[i].deadline < best {
                best = self.entries[i].deadline;
            }
            i += 1;
        }
        proof {
            let b = choose|b: int| 0 <= b < n && #[trigger] self.entries@[b].deadline == best;
            lemma_entries_map_value(self.entries@, b);
            assert(self@.dom().contains(self.entries@[b].key@) && self@[self.entries@[b].key@]
                == best as int);
            assert forall|k: Seq<char>| self@.dom().contains(k) implies self@[k] >= best as int by {
                lemma_entries_map_contains(self.entries@, k);
                let c = choose|c: int|
                    0 <= c < self.entries@.len() && #[trigger] self.entries@[c].key@ == k;
                lemma_entries_map_value(self.entries@, c);
            }
        }
        Some(best)
    }

    /// Cancels every pending deadline without firing any of them.
    pub fn shutdown(&mut self)
        ensures
            final(self).wf(),
            final(self).delay() == old(self).delay(),
            final(self)@ == Map::<Seq<char>, int>::empty(),
    {
        self.entries = Vec::new();
        proof {
            assert(self@ =~= Map::<Seq<char>, int>::empty());
        }
    }
}

} // verus!
