//! The balancer: a limit on the threads available to the finders, and the
//! time of the last request that each finder made, oldest first.
use vstd::multiset::Multiset;
use vstd::prelude::*;

use crate::cooldown::{
    cooldown_wait, lemma_requests_apart, request_time, spec_cooldown_wait, NANOS_PER_SEC,
};
use crate::text::{chars_of, string_views};

verus! {

broadcast use vstd::seq_lib::group_to_multiset_ensures;

/// `a` comes strictly before `b` in lexicographic order of characters, the
/// order of `String`s.
pub open spec fn seq_lt(a: Seq<char>, b: Seq<char>) -> bool
    decreases a.len(),
{
    if a.len() == 0 {
        b.len() > 0
    } else if b.len() == 0 {
        false
    } else if a[0] != b[0] {
        (a[0] as int) < (b[0] as int)
    } else {
        seq_lt(a.drop_first(), b.drop_first())
    }
}

pub proof fn lemma_seq_lt_asymmetric(a: Seq<char>, b: Seq<char>)
    ensures
        !(seq_lt(a, b) && seq_lt(b, a)),
        !seq_lt(a, a),
    decreases a.len(),
{
    if a.len() > 0 && b.len() > 0 && a[0] == b[0] {
        lemma_seq_lt_asymmetric(a.drop_first(), b.drop_first());
    }
    if a.len() > 0 {
        lemma_seq_lt_asymmetric(a.drop_first(), a.drop_first());
    }
}

pub proof fn lemma_seq_lt_total(a: Seq<char>, b: Seq<char>)
    ensures
        a == b || seq_lt(a, b) || seq_lt(b, a),
    decreases a.len(),
{
    if a.len() == 0 {
        if b.len() == 0 {
            assert(a =~= b);
        }
    } else if b.len() == 0 {
    } else if a[0] != b[0] {

    } else {
        lemma_seq_lt_total(a.drop_first(), b.drop_first());
        if a.drop_first() == b.drop_first() {
            assert(a.len() == a.drop_first().len() + 1);
            assert(b.len() == b.drop_first().len() + 1);
            assert forall|i: int| 0 <= i < a.len() implies a[i] == b[i] by {
                if i > 0 {
                    assert(a[i] == a.drop_first()[i - 1]);
                    assert(b[i] == b.drop_first()[i - 1]);
                }
            }
            assert(a =~= b);
        }
    }
}

pub proof fn lemma_seq_lt_transitive(a: Seq<char>, b: Seq<char>, c: Seq<char>)
    requires
        seq_lt(a, b),
        seq_lt(b, c),
    ensures
        seq_lt(a, c),
    decreases a.len(),
{
    if a.len() > 0 && b.len() > 0 && c.len() > 0 && a[0] == b[0] && b[0] == c[0] {
        lemma_seq_lt_transitive(a.drop_first(), b.drop_first(), c.drop_first());
    }
}

/// The order of the balancer's entries: by time of last request, then by
/// identifier (the order that the derived `Ord` of `IdTimestamp` gives).
pub open spec fn entry_le(x: (u64, Seq<char>), y: (u64, Seq<char>)) -> bool {
    x.0 < y.0 || (x.0 == y.0 && (x.1 == y.1 || seq_lt(x.1, y.1)))
}

pub proof fn lemma_entry_le_order(x: (u64, Seq<char>), y: (u64, Seq<char>), z: (u64, Seq<char>))
    ensures
        entry_le(x, x),
        entry_le(x, y) || entry_le(y, x),
        entry_le(x, y) && entry_le(y, x) ==> x == y,
        entry_le(x, y) && entry_le(y, z) ==> entry_le(x, z),
{
    lemma_seq_lt_total(x.1, y.1);
    lemma_seq_lt_asymmetric(x.1, y.1);
    if seq_lt(x.1, y.1) && seq_lt(y.1, z.1) {
        lemma_seq_lt_transitive(x.1, y.1, z.1);
    }
}

/// `e` is an entry of `ms` that no other entry comes before.
pub open spec fn is_oldest(ms: Multiset<(u64, Seq<char>)>, e: (u64, Seq<char>)) -> bool {
    &&& ms.contains(e)
    &&& forall|x: (u64, Seq<char>)| #[trigger] ms.contains(x) ==> entry_le(e, x)
}

/// The entry with the oldest request: the one a min-heap of entries has on top.
pub open spec fn oldest(ms: Multiset<(u64, Seq<char>)>) -> (u64, Seq<char>) {
    choose|e: (u64, Seq<char>)| is_oldest(ms, e)
}

pub proof fn lemma_oldest_unique(ms: Multiset<(u64, Seq<char>)>, e: (u64, Seq<char>))
    requires
        is_oldest(ms, e),
    ensures
        oldest(ms) == e,
{
    let o = oldest(ms);
    assert(is_oldest(ms, o));
    assert(entry_le(e, o));
    assert(entry_le(o, e));
    lemma_entry_le_order(e, o, e);
}

/// A nonempty list of entries has an oldest one.
pub proof fn lemma_oldest_exists(s: Seq<(u64, Seq<char>)>)
    requires
        s.len() > 0,
    ensures
        is_oldest(s.to_multiset(), oldest(s.to_multiset())),
        s.contains(oldest(s.to_multiset())),
    decreases s.len(),
{
    let ms = s.to_multiset();
    if s.len() == 1 {
        let e = s[0];
        assert forall|x: (u64, Seq<char>)| #[trigger] ms.contains(x) implies entry_le(e, x) by {
            assert(s.contains(x));
            lemma_entry_le_order(e, x, x);
        }
        lemma_oldest_unique(ms, e);
    } else {
        let t = s.drop_last();
        lemma_oldest_exists(t);
        let m = oldest(t.to_multiset());
        let l = s.last();
        lemma_entry_le_order(m, l, l);
        let e = if entry_le(m, l) {
            m
        } else {
            l
        };
        assert(s =~= t.push(l));
        assert forall|x: (u64, Seq<char>)| #[trigger] ms.contains(x) implies entry_le(e, x) by {
            assert(s.contains(x));
            if x == l {
                lemma_entry_le_order(e, l, l);
            } else {
                let i = choose|i: int| 0 <= i < s.len() && s[i] == x;
                assert(t[i] == x);
                assert(t.contains(x));
                assert(t.to_multiset().contains(x));
                assert(entry_le(m, x));
                lemma_entry_le_order(e, m, x);
            }
        }
        assert(t.to_multiset().contains(m));
        assert(t.contains(m));
        assert(ms.contains(e)) by {
            if e == m {
                let i = choose|i: int| 0 <= i < t.len() && t[i] == m;
                assert(s[i] == m);
            } else {
                assert(s[s.len() - 1] == l);
            }
        }
        lemma_oldest_unique(ms, e);
    }
}

/// The identifier of a finder with the time (nanoseconds since the UNIX
/// epoch) of its last request; zero before its first.
#[derive(Debug, PartialEq, Eq, PartialOrd, Ord)]
pub struct IdTimestamp {
    timestamp: u64,
    id: String,
}

impl IdTimestamp {
    /// The (time, identifier) pair that the entry stands for.
    pub closed spec fn key(self) -> (u64, Seq<char>) {
        (self.timestamp, self.id@)
    }
}

/// What a balancer holds: the threads still available, the cooldown
/// between two requests of one finder (in seconds), and one entry per
/// finder with the time of its last request.
pub struct BalancerView {
    pub available: nat,
    pub cooldown: u64,
    pub entries: Multiset<(u64, Seq<char>)>,
}

impl BalancerView {
    /// Whether a finder with identifier `id` may run now.
    pub open spec fn wakes(self, id: Seq<char>) -> bool {
        self.available > 0 && oldest(self.entries).1 == id
    }

    /// The balancer after the oldest finder took a thread at time `now`.
    pub open spec fn taken(self, now: u64) -> BalancerView {
        let o = oldest(self.entries);
        BalancerView {
            available: (self.available - 1) as nat,
            cooldown: self.cooldown,
            entries: self.entries.remove(o).insert((now, o.1)),
        }
    }

    /// The balancer after a finder gave its thread back.
    pub open spec fn released(self) -> BalancerView {
        BalancerView {
            available: self.available + 1,
            cooldown: self.cooldown,
            entries: self.entries,
        }
    }
}

/// Keeps a limit on the threads available to the finders and lets the
/// finder whose last request is the oldest go first.
pub struct Balancer {
    available_threads: usize,
    page_cooldown: u64,
    id_timestamps: Vec<IdTimestamp>,
}

/// The (time, identifier) pairs of a list of entries.
pub open spec fn keys(s: Seq<IdTimestamp>) -> Seq<(u64, Seq<char>)> {
    s.map_values(|e: IdTimestamp| e.key())
}

impl View for Balancer {
    type V = BalancerView;

    closed spec fn view(&self) -> BalancerView {
        BalancerView {
            available: self.available_threads as nat,
            cooldown: self.page_cooldown,
            entries: keys(self.id_timestamps@).to_multiset(),
        }
    }
}

/// Whether `a` comes strictly before `b` in the order of `String`s.
fn string_less(a: &String, b: &String) -> (r: bool)
    ensures
        r == seq_lt(a@, b@),
{
    let x = chars_of(a.as_str());
    let y = chars_of(b.as_str());
    let mut i: usize = 0;
    assert(x@.skip(0) =~= x@);
    assert(y@.skip(0) =~= y@);
    while i < x.len() && i < y.len()
        invariant
            i <= x@.len(),
            i <= y@.len(),
            x@ == a@,
            y@ == b@,
            seq_lt(a@, b@) == seq_lt(x@.skip(i as int), y@.skip(i as int)),
        decreases x.len() - i,
    {
        if x[i] != y[i] {
            return x[i] < y[i];
        }
        assert(x@.skip(i as int).drop_first() =~= x@.skip(i + 1));
        assert(y@.skip(i as int).drop_first() =~= y@.skip(i + 1));
        i = i + 1;
    }
    i == x.len() && i < y.len()
}

/// Whether entry `a` comes before or with entry `b`.
fn entry_le_exec(a: &IdTimestamp, b: &IdTimestamp) -> (r: bool)
    ensures
        r == entry_le(a.key(), b.key()),
{
    if a.timestamp != b.timestamp {
        a.timestamp < b.timestamp
    } else {
        a.id == b.id || string_less(&a.id, &b.id)
    }
}

impl Balancer {
    /// A balancer with `available_threads` threads, the given cooldown, and
    /// one entry per identifier, none of which has made a request yet.
    pub fn new(available_threads: usize, page_cooldown: u64, ids: &[String]) -> (b: Balancer)
        ensures
            b@.available == available_threads,
            b@.cooldown == page_cooldown,
            b@.entries == string_views(ids@).map_values(|id: Seq<char>| (0u64, id)).to_multiset(),
    {
        let mut v: Vec<IdTimestamp> = Vec::new();
        let mut i: usize = 0;
        while i < ids.len()
            invariant
                i <= ids@.len(),
                v@.len() == i,
                forall|j: int| 0 <= j < i ==> #[trigger] v@[j].key() == (0u64, ids@[j]@),
            decreases ids.len() - i,
        {
            v.push(IdTimestamp { timestamp: 0, id: ids[i].clone() });
            i = i + 1;
        }
        assert(keys(v@) =~= string_views(ids@).map_values(|id: Seq<char>| (0u64, id)));
        Balancer { available_threads, page_cooldown, id_timestamps: v }
    }

    /// Where the oldest entry stands.
    fn oldest_index(&self) -> (m: usize)
        requires
            self@.entries.len() > 0,
        ensures
            m < self.id_timestamps@.len(),
            self.id_timestamps@[m as int].key() == oldest(self@.entries),
    {
        let ghost s = keys(self.id_timestamps@);
        assert(s.len() > 0);
        let mut best: usize = 0;
        let mut j: usize = 1;
        while j < self.id_timestamps.len()
            invariant
                s == keys(self.id_timestamps@),
                best < j <= s.len(),
                forall|q: int| 0 <= q < j ==> entry_le(s[best as int], #[trigger] s[q]),
            decreases self.id_timestamps.len() - j,
        {
            let better = !entry_le_exec(&self.id_timestamps[best], &self.id_timestamps[j]);
            proof {
                lemma_entry_le_order(s[best as int], s[j as int], s[j as int]);
                if better {
                    assert forall|q: int| 0 <= q < j + 1 implies entry_le(
                        s[j as int],
                        #[trigger] s[q],
                    ) by {
                        lemma_entry_le_order(s[j as int], s[best as int], s[q]);
                    }
                }
            }
            if better {
                best = j;
            }
            j = j + 1;
        }
        proof {
            let ms = s.to_multiset();
            assert forall|x: (u64, Seq<char>)| #[trigger] ms.contains(x) implies entry_le(
                s[best as int],
                x,
            ) by {
                assert(s.contains(x));
                let q = choose|q: int| 0 <= q < s.len() && s[q] == x;
            }
            assert(s.contains(s[best as int]));
            lemma_oldest_unique(ms, s[best as int]);
        }
        best
    }

    /// Only the finder with the oldest request may run, and only while
    /// threads are available.
    pub fn can_wakeup(&self, id: &str) -> (b: bool)
        requires
            self@.entries.len() > 0,
        ensures
            b == self@.wakes(id@),
    {
        let m = self.oldest_index();
        let owned = id.to_owned();
        self.available_threads > 0 && self.id_timestamps[m].id == owned
    }

    /// The seconds that the oldest finder must still wait, at time `now`,
    /// before its next request.
    pub fn next_wait(&self, now: u64) -> (w: u64)
        requires
            self@.entries.len() > 0,
            oldest(self@.entries).0 <= now,
        ensures
            w == spec_cooldown_wait(self@.cooldown, oldest(self@.entries).0, now),
    {
        let m = self.oldest_index();
        cooldown_wait(self.page_cooldown, self.id_timestamps[m].timestamp, now)
    }

    /// The oldest finder takes a thread at time `now`: returns the seconds it
    /// must sleep before its request so that `page_cooldown` seconds separate
    /// it from its previous one, and dates its request at the end of the
    /// sleep.
    pub fn take_thread(&mut self, now: u64) -> (wait: u64)
        requires
            old(self)@.available > 0,
            old(self)@.entries.len() > 0,
            oldest(old(self)@.entries).0 <= now,
            request_time(old(self)@.cooldown, oldest(old(self)@.entries).0, now) <= u64::MAX,
        ensures
            wait == spec_cooldown_wait(old(self)@.cooldown, oldest(old(self)@.entries).0, now),
            final(self)@ == old(self)@.taken((now + wait * NANOS_PER_SEC) as u64),
            (now + wait * NANOS_PER_SEC) - oldest(old(self)@.entries).0 >= old(self)@.cooldown
                * NANOS_PER_SEC,
    {
        let m = self.oldest_index();
        let ghost s = keys(self.id_timestamps@);
        let last = self.id_timestamps[m].timestamp;
        proof {
            lemma_requests_apart(self.page_cooldown, last, now);
        }
        let wait = cooldown_wait(self.page_cooldown, last, now);
        let stamp = now + wait * NANOS_PER_SEC;
        let e = self.id_timestamps.remove(m);
        proof {
            assert(keys(self.id_timestamps@) =~= s.remove(m as int));
        }
        let refreshed = IdTimestamp { timestamp: stamp, id: e.id };
        self.id_timestamps.push(refreshed);
        proof {
            assert(keys(self.id_timestamps@) =~= s.remove(m as int).push((stamp, e.id@)));
        }
        self.available_threads = self.available_threads - 1;
        wait
    }

    /// The count of available threads is a `usize`.
    pub proof fn lemma_available_bounded(&self)
        ensures
            self@.available <= usize::MAX,
    {
    }

    /// The threads still available.
    pub fn available_threads(&self) -> (n: usize)
        ensures
            n == self@.available,
    {
        self.available_threads
    }

    /// The time of the oldest request.
    pub fn oldest_timestamp(&self) -> (t: u64)
        requires
            self@.entries.len() > 0,
        ensures
            t == oldest(self@.entries).0,
    {
        let m = self.oldest_index();
        self.id_timestamps[m].timestamp
    }

    /// A finder gives its thread back.
    pub fn release_thread(&mut self)
        requires
            old(self)@.available < usize::MAX,
        ensures
            final(self)@ == old(self)@.released(),
    {
        self.available_threads = self.available_threads + 1;
    }
}

/// A thread that is taken and then given back leaves the count of available
/// threads and the cooldown as they were, and of the entries only the one
/// that took the thread has changed: its request is now dated `now`.
pub proof fn lemma_take_then_release(b: BalancerView, now: u64)
    requires
        b.available > 0,
    ensures
        b.taken(now).released().available == b.available,
        b.taken(now).released().cooldown == b.cooldown,
        b.taken(now).released().entries == b.entries.remove(oldest(b.entries)).insert(
            (now, oldest(b.entries).1),
        ),
{
}

/// A step of the balancer: a take whose request is dated by the stamp, or a
/// release.
pub open spec fn step(b: BalancerView, op: Option<u64>) -> BalancerView {
    match op {
        Some(stamp) => b.taken(stamp),
        None => b.released(),
    }
}

/// The balancer after a run of steps.
pub open spec fn run(b: BalancerView, ops: Seq<Option<u64>>) -> BalancerView
    decreases ops.len(),
{
    if ops.len() == 0 {
        b
    } else {
        step(run(b, ops.drop_last()), ops.last())
    }
}

/// The takes of a run less its releases: the requests in flight.
pub open spec fn in_flight(ops: Seq<Option<u64>>) -> int
    decreases ops.len(),
{
    if ops.len() == 0 {
        0
    } else {
        in_flight(ops.drop_last()) + if ops.last() is Some {
            1int
        } else {
            -1int
        }
    }
}

/// Each step of the run is one the balancer allows: a take only while a
/// thread is available, a release only of a thread that was taken.
pub open spec fn allowed_run(b: BalancerView, ops: Seq<Option<u64>>) -> bool {
    forall|k: int|
        0 <= k < ops.len() ==> if ops[k] is Some {
            run(b, ops.take(k)).available > 0
        } else {
            in_flight(ops.take(k)) > 0
        }
}

/// The requests in flight never exceed the threads the balancer started
/// with: along any allowed run of takes and releases, the threads available
/// and the requests in flight always add up to that number.
pub proof fn lemma_concurrency_limit(b: BalancerView, ops: Seq<Option<u64>>)
    requires
        allowed_run(b, ops),
    ensures
        forall|k: int|
            0 <= k <= ops.len() ==> run(b, #[trigger] ops.take(k)).available + in_flight(
                ops.take(k),
            ) == b.available,
        forall|k: int| 0 <= k <= ops.len() ==> 0 <= #[trigger] in_flight(ops.take(k)) <= b.available,
    decreases ops.len(),
{
    if ops.len() > 0 {
        let p = ops.drop_last();
        assert forall|k: int| 0 <= k < p.len() implies (if p[k] is Some {
            run(b, p.take(k)).available > 0
        } else {
            in_flight(p.take(k)) > 0
        }) by {
            assert(p.take(k) =~= ops.take(k));
            assert(p[k] == ops[k]);
        }
        lemma_concurrency_limit(b, p);
        assert forall|k: int| 0 <= k <= ops.len() implies run(b, #[trigger] ops.take(k)).available
            + in_flight(ops.take(k)) == b.available && 0 <= in_flight(ops.take(k)) <= b.available by {
            if k < ops.len() {
                assert(ops.take(k) =~= p.take(k));
            } else {
                let n = ops.len() - 1;
                assert(ops.take(k) =~= ops);
                assert(ops.drop_last() =~= p.take(n));
                assert(ops.take(n) =~= p.take(n));
                assert(ops[n] == ops.last());
            }
        }
    } else {
        assert forall|k: int| 0 <= k <= ops.len() implies run(b, #[trigger] ops.take(k)).available
            + in_flight(ops.take(k)) == b.available && 0 <= in_flight(ops.take(k)) <= b.available by {
            assert(ops.take(k) =~= ops);
        }
    }
}

/// A release leaves the entries as they were.
pub proof fn lemma_release_keeps_entries(b: BalancerView)
    ensures
        b.released().entries == b.entries,
        b.released().cooldown == b.cooldown,
{
}

/// At any moment at most one finder may run: the one with the oldest request.
pub proof fn lemma_single_waker(b: BalancerView, id1: Seq<char>, id2: Seq<char>)
    requires
        b.wakes(id1),
        b.wakes(id2),
    ensures
        id1 == id2,
{
}

/// The finder that takes a thread goes to the back of the queue: when its
/// new request is later than every other one, some other finder is now the
/// oldest, and it is the oldest of the others.
pub proof fn lemma_served_goes_last(b: Balancer, now: u64)
    requires
        b@.entries.len() >= 2,
        forall|e: (u64, Seq<char>)| #[trigger] b@.entries.contains(e) ==> e.0 < now,
    ensures
        oldest(b@.taken(now).entries) == oldest(b@.entries.remove(oldest(b@.entries))),
        oldest(b@.taken(now).entries).0 < now,
{
    let s = keys(b.id_timestamps@);
    let ms = s.to_multiset();
    assert(ms == b@.entries);
    lemma_oldest_exists(s);
    let o = oldest(ms);
    assert(s.contains(o));
    let i = choose|i: int| 0 <= i < s.len() && s[i] == o;
    let r = s.remove(i);
    assert(r.to_multiset() == ms.remove(o));
    assert(r.len() == s.len() - 1);
    lemma_oldest_exists(r);
    let m = oldest(r.to_multiset());
    assert(r.to_multiset().contains(m));
    assert(ms.contains(m));
    let t = ms.remove(o).insert((now, o.1));
    assert(m.0 < now);
    assert forall|x: (u64, Seq<char>)| #[trigger] t.contains(x) implies entry_le(m, x) by {
        if x != (now, o.1) {
            assert(ms.remove(o).contains(x));
            assert(r.to_multiset().contains(x));
        }
    }
    assert(t.contains(m));
    lemma_oldest_unique(t, m);
}

/// The entries of a balancer just made with these identifiers.
pub open spec fn initial_entries(ids: Seq<Seq<char>>) -> Multiset<(u64, Seq<char>)> {
    ids.map_values(|id: Seq<char>| (0u64, id)).to_multiset()
}

/// The balancer after successive takes whose requests are dated `stamps`.
pub open spec fn after_takes(b: BalancerView, stamps: Seq<u64>) -> BalancerView
    decreases stamps.len(),
{
    if stamps.len() == 0 {
        b
    } else {
        after_takes(b, stamps.drop_last()).taken(stamps.last())
    }
}

/// The entries after successive takes, oldest first.
pub open spec fn queue_after(ids: Seq<Seq<char>>, stamps: Seq<u64>) -> Seq<(u64, Seq<char>)>
    decreases stamps.len(),
{
    if stamps.len() == 0 {
        ids.map_values(|id: Seq<char>| (0u64, id))
    } else {
        let q = queue_after(ids, stamps.drop_last());
        q.drop_first().push((stamps.last(), q[0].1))
    }
}

/// `a` comes before or with `b` in the order of `String`s.
pub open spec fn id_le(a: Seq<char>, b: Seq<char>) -> bool {
    a == b || seq_lt(a, b)
}

/// The identifiers are in the order of `String`s.
pub open spec fn ids_sorted(ids: Seq<Seq<char>>) -> bool {
    forall|i: int, j: int| 0 <= i < j < ids.len() ==> id_le(ids[i], ids[j])
}

/// The identifiers put in the order of `String`s.
pub open spec fn sorted_ids(ids: Seq<Seq<char>>) -> Seq<Seq<char>> {
    ids.sort_by(|a: Seq<char>, b: Seq<char>| id_le(a, b))
}

proof fn lemma_id_le_total_ordering()
    ensures
        vstd::relations::total_ordering(|a: Seq<char>, b: Seq<char>| id_le(a, b)),
{
    let r = |a: Seq<char>, b: Seq<char>| id_le(a, b);
    assert forall|x: Seq<char>, y: Seq<char>| #[trigger] r(x, y) && #[trigger] r(y, x) implies x
        == y by {
        lemma_seq_lt_asymmetric(x, y);
    }
    assert forall|x: Seq<char>, y: Seq<char>, z: Seq<char>| #[trigger] r(x, y) && #[trigger] r(
        y,
        z,
    ) implies r(x, z) by {
        if seq_lt(x, y) && seq_lt(y, z) {
            lemma_seq_lt_transitive(x, y, z);
        }
    }
    assert forall|x: Seq<char>, y: Seq<char>| #[trigger] r(x, y) || #[trigger] r(y, x) by {
        lemma_seq_lt_total(x, y);
    }
}

/// Rearranging a list keeps what a function maps it to, up to order.
proof fn lemma_map_values_permutation(
    s1: Seq<Seq<char>>,
    s2: Seq<Seq<char>>,
    f: spec_fn(Seq<char>) -> (u64, Seq<char>),
)
    requires
        s1.to_multiset() == s2.to_multiset(),
    ensures
        s1.map_values(f).to_multiset() == s2.map_values(f).to_multiset(),
    decreases s1.len(),
{
    broadcast use vstd::seq_lib::group_to_multiset_ensures;

    if s1.len() == 0 {
        assert(s1.to_multiset().len() == s1.len());
        assert(s2.to_multiset().len() == s2.len());
        assert(s2.len() == 0);
        assert(s1.map_values(f) =~= s2.map_values(f));
    } else {
        let x = s1[0];
        assert(s1.to_multiset().count(x) > 0);
        assert(s2.contains(x));
        let j = choose|j: int| 0 <= j < s2.len() && s2[j] == x;
        assert(s1.remove(0).to_multiset() == s2.remove(j).to_multiset());
        lemma_map_values_permutation(s1.remove(0), s2.remove(j), f);
        assert(s1.map_values(f).remove(0) =~= s1.remove(0).map_values(f));
        assert(s2.map_values(f).remove(j) =~= s2.remove(j).map_values(f));
        let m1 = s1.map_values(f).to_multiset();
        let m2 = s2.map_values(f).to_multiset();
        assert(m1.remove(f(x)) == m2.remove(f(x)));
        assert(s1.map_values(f)[0] == f(x));
        assert(s2.map_values(f)[j] == f(x));
        assert(s1.map_values(f).contains(f(x)));
        assert(s2.map_values(f).contains(f(x)));
        assert(m1 =~= m2.remove(f(x)).insert(f(x)));
        assert(m2 =~= m2.remove(f(x)).insert(f(x)));
    }
}

/// The dates of the requests are later than the start and increase.
pub open spec fn stamps_increasing(stamps: Seq<u64>) -> bool {
    &&& forall|i: int| 0 <= i < stamps.len() ==> 0 < #[trigger] stamps[i]
    &&& forall|i: int, j: int| 0 <= i < j < stamps.len() ==> stamps[i] < stamps[j]
}

proof fn lemma_queue_after(b: BalancerView, ids: Seq<Seq<char>>, stamps: Seq<u64>)
    requires
        ids.len() > 0,
        ids_sorted(ids),
        stamps_increasing(stamps),
        b.entries == initial_entries(ids),
    ensures
        queue_after(ids, stamps).len() == ids.len(),
        forall|i: int, j: int|
            0 <= i < j < ids.len() ==> entry_le(
                queue_after(ids, stamps)[i],
                queue_after(ids, stamps)[j],
            ),
        forall|i: int|
            0 <= i < ids.len() ==> (#[trigger] queue_after(ids, stamps)[i]).1 == ids[(stamps.len()
                + i) % (ids.len() as int)],
        forall|i: int|
            0 <= i < ids.len() ==> (#[trigger] queue_after(ids, stamps)[i]).0 <= if stamps.len()
                == 0 {
                0
            } else {
                stamps.last()
            },
        after_takes(b, stamps).entries == queue_after(ids, stamps).to_multiset(),
    decreases stamps.len(),
{
    let m = ids.len() as int;
    let q = queue_after(ids, stamps);
    if stamps.len() == 0 {
        assert forall|i: int, j: int| 0 <= i < j < ids.len() implies entry_le(q[i], q[j]) by {
            assert(id_le(ids[i], ids[j]));
        }
        assert forall|i: int| 0 <= i < ids.len() implies (#[trigger] q[i]).1 == ids[(
        stamps.len() + i) % m] by {
            vstd::arithmetic::div_mod::lemma_small_mod(i as nat, m as nat);
            assert((0 + i) % m == i);
        }
    } else {
        let p = stamps.drop_last();
        let t = stamps.last();
        assert(stamps_increasing(p)) by {
            assert forall|i: int| 0 <= i < p.len() implies 0 < #[trigger] p[i] by {
                assert(p[i] == stamps[i]);
            }
            assert forall|i: int, j: int| 0 <= i < j < p.len() implies p[i] < p[j] by {
                assert(p[i] == stamps[i]);
                assert(p[j] == stamps[j]);
            }
        }
        lemma_queue_after(b, ids, p);
        let r = queue_after(ids, p);
        let last_p: int = if p.len() == 0 {
            0
        } else {
            p.last() as int
        };
        assert(last_p < t) by {
            if p.len() > 0 {
                assert(p.last() == stamps[p.len() - 1]);
                assert(stamps[p.len() - 1] < stamps[stamps.len() - 1]);
            } else {
                assert(0 < stamps[0]);
            }
        }
        assert(q == r.drop_first().push((t, r[0].1)));
        // the oldest entry is the head of the queue
        let ms = r.to_multiset();
        assert forall|x: (u64, Seq<char>)| #[trigger] ms.contains(x) implies entry_le(r[0], x) by {
            assert(r.contains(x));
            let j = choose|j: int| 0 <= j < r.len() && r[j] == x;
            if j > 0 {
                assert(entry_le(r[0], r[j]));
            } else {
                lemma_entry_le_order(x, x, x);
            }
        }
        assert(r.contains(r[0]));
        lemma_oldest_unique(ms, r[0]);
        assert(r.drop_first() =~= r.remove(0));
        assert(after_takes(b, stamps).entries == q.to_multiset());
        assert forall|i: int, j: int| 0 <= i < j < ids.len() implies entry_le(q[i], q[j]) by {
            if j < m - 1 {
                assert(q[i] == r[i + 1]);
                assert(q[j] == r[j + 1]);
            } else {
                assert(q[i] == r[i + 1]);
                assert(q[i].0 <= last_p);
            }
        }
        assert forall|i: int| 0 <= i < ids.len() implies (#[trigger] q[i]).1 == ids[(stamps.len()
            + i) % m] by {
            if i < m - 1 {
                assert(q[i] == r[i + 1]);
                assert(r[i + 1].1 == ids[(p.len() + (i + 1)) % m]);
                assert(p.len() + (i + 1) == stamps.len() + i);
            } else {
                assert(q[i] == (t, r[0].1));
                assert(r[0].1 == ids[(p.len() as int + 0) % m]);
                vstd::arithmetic::div_mod::lemma_mod_add_multiples_vanish(p.len() as int, m);
                assert(stamps.len() + i == m + p.len());
            }
        }
        assert forall|i: int| 0 <= i < ids.len() implies (#[trigger] q[i]).0 <= stamps.last() by {
            if i < m - 1 {
                assert(q[i] == r[i + 1]);
                assert(r[i + 1].0 <= last_p);
            }
        }
    }
}

/// Round robin over identifiers already in order.
proof fn lemma_round_robin_sorted(b: BalancerView, ids: Seq<Seq<char>>, stamps: Seq<u64>)
    requires
        ids.len() > 0,
        ids_sorted(ids),
        stamps_increasing(stamps),
        b.entries == initial_entries(ids),
    ensures
        forall|k: int|
            0 <= k < stamps.len() ==> oldest(after_takes(b, #[trigger] stamps.take(k)).entries).1
                == ids[k % (ids.len() as int)],
{
    assert forall|k: int| 0 <= k < stamps.len() implies oldest(
        after_takes(b, #[trigger] stamps.take(k)).entries,
    ).1 == ids[k % (ids.len() as int)] by {
        let p = stamps.take(k);
        assert(stamps_increasing(p)) by {
            assert forall|i: int| 0 <= i < p.len() implies 0 < #[trigger] p[i] by {
                assert(p[i] == stamps[i]);
            }
            assert forall|i: int, j: int| 0 <= i < j < p.len() implies p[i] < p[j] by {
                assert(p[i] == stamps[i]);
                assert(p[j] == stamps[j]);
            }
        }
        lemma_queue_after(b, ids, p);
        let q = queue_after(ids, p);
        let ms = q.to_multiset();
        assert forall|x: (u64, Seq<char>)| #[trigger] ms.contains(x) implies entry_le(q[0], x) by {
            assert(q.contains(x));
            let j = choose|j: int| 0 <= j < q.len() && q[j] == x;
            if j > 0 {
                assert(entry_le(q[0], q[j]));
            } else {
                lemma_entry_le_order(x, x, x);
            }
        }
        assert(q.contains(q[0]));
        lemma_oldest_unique(ms, q[0]);
        assert(q[0].1 == ids[(p.len() as int + 0) % (ids.len() as int)]);
    }
}

/// The balancer serves the finders in turn: made with any identifiers and
/// given requests at increasing times, its `k`-th take serves identifier
/// number `k` modulo their count, counted in the order of `String`s; so a
/// finder that was served waits until every other one was served once.
pub proof fn lemma_round_robin(b: BalancerView, ids: Seq<Seq<char>>, stamps: Seq<u64>)
    requires
        ids.len() > 0,
        stamps_increasing(stamps),
        b.entries == initial_entries(ids),
    ensures
        sorted_ids(ids).to_multiset() == ids.to_multiset(),
        ids_sorted(sorted_ids(ids)),
        forall|k: int|
            0 <= k < stamps.len() ==> oldest(after_takes(b, #[trigger] stamps.take(k)).entries).1
                == sorted_ids(ids)[k % (ids.len() as int)],
{
    broadcast use vstd::seq_lib::group_to_multiset_ensures;

    let s = sorted_ids(ids);
    lemma_id_le_total_ordering();
    ids.lemma_sort_by_ensures(|a: Seq<char>, b: Seq<char>| id_le(a, b));
    assert(s.len() == ids.len()) by {
        assert(s.to_multiset().len() == ids.to_multiset().len());
    }
    assert(ids_sorted(s)) by {
        assert forall|i: int, j: int| 0 <= i < j < s.len() implies id_le(s[i], s[j]) by {
            assert((|a: Seq<char>, b: Seq<char>| id_le(a, b))(s[i], s[j]));
        }
    }
    lemma_map_values_permutation(ids, s, |id: Seq<char>| (0u64, id));
    assert(b.entries == initial_entries(s));
    lemma_round_robin_sorted(b, s, stamps);
}

} // verus!
