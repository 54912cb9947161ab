//! The topic filter table: a flat set of `(filter, subscriber id)` pairs,
//! and the match function that decides which filters cover a topic.
//!
//! A topic or filter is split on `/` into segments, empty segments
//! dropped. A filter matches a topic when the pairwise walk over their
//! segments reaches a `#` segment of the filter, or exhausts filter and
//! topic together; `+` matches any one segment. A filter that runs out
//! before the topic, or after it, does not match.

use vstd::prelude::*;

use crate::bitset::BitSet;
use crate::config::MAX_CONNECTIONS;
use crate::config::MAX_TOPIC_LENGTH;
use crate::config::TREE_SIZE;
use crate::errors::TopicsError;

verus! {

/// The byte `/` separating topic segments.
pub open spec fn slash() -> u8 {
    47
}

/// The single-segment wildcard `+`.
pub open spec fn plus_seg() -> Seq<u8> {
    seq![43u8]
}

/// The terminal multi-level wildcard `#`.
pub open spec fn hash_seg() -> Seq<u8> {
    seq![35u8]
}

/// The index of the first `/` at or after `i`, or the end of `s`.
pub open spec fn seg_end(s: Seq<u8>, i: int) -> int
    decreases s.len() - i,
{
    if i < 0 || i >= s.len() {
        s.len() as int
    } else if s[i] == slash() {
        i
    } else {
        seg_end(s, i + 1)
    }
}

/// `seg_end` stays between its argument and the end of the sequence, and
/// moves forward over a non-separator byte.
pub proof fn lemma_seg_end_bounds(s: Seq<u8>, i: int)
    requires
        0 <= i <= s.len(),
    ensures
        i <= seg_end(s, i) <= s.len(),
        i < s.len() && s[i] != slash() ==> seg_end(s, i) > i,
    decreases s.len() - i,
{
    if i < s.len() && s[i] != slash() {
        lemma_seg_end_bounds(s, i + 1);
    }
}

/// The segments of `s` from `i` on: split on `/`, empty segments dropped.
pub open spec fn spec_segments_from(s: Seq<u8>, i: int) -> Seq<Seq<u8>>
    decreases s.len() - i,
    when 0 <= i
    via spec_segments_from_decreases
{
    if i >= s.len() {
        seq![]
    } else if s[i] == slash() {
        spec_segments_from(s, i + 1)
    } else {
        seq![s.subrange(i, seg_end(s, i))] + spec_segments_from(s, seg_end(s, i))
    }
}

#[via_fn]
proof fn spec_segments_from_decreases(s: Seq<u8>, i: int) {
    if 0 <= i < s.len() && s[i] != slash() {
        lemma_seg_end_bounds(s, i);
    }
}

/// The segments of `s`: split on `/`, empty segments dropped.
pub open spec fn spec_segments(s: Seq<u8>) -> Seq<Seq<u8>> {
    spec_segments_from(s, 0)
}

/// Whether the filter segments `f` cover the topic segments `t`: walking
/// pairwise, a `#` segment matches whatever topic segments remain (also
/// none: `a/#` covers the parent `a`), `+` matches exactly one segment,
/// and the walk must otherwise exhaust filter and topic together — a
/// filter that runs out before the topic does not match it.
pub open spec fn spec_matches_segs(f: Seq<Seq<u8>>, t: Seq<Seq<u8>>) -> bool
    decreases f.len(),
{
    if f.len() == 0 {
        t.len() == 0
    } else if f[0] == hash_seg() {
        true
    } else if t.len() == 0 {
        false
    } else if f[0] == plus_seg() || f[0] == t[0] {
        spec_matches_segs(f.drop_first(), t.drop_first())
    } else {
        false
    }
}

/// Whether the filter `f` covers the topic `t`.
pub open spec fn spec_matches(f: Seq<u8>, t: Seq<u8>) -> bool {
    spec_matches_segs(spec_segments(f), spec_segments(t))
}

/// Compares two byte strings.
fn bytes_eq(a: &[u8], b: &[u8]) -> (r: bool)
    ensures
        r == (a@ == b@),
{
    if a.len() != b.len() {
        proof {
            assert(a@.len() != b@.len());
        }
        return false;
    }
    let mut i: usize = 0;
    while i < a.len()
        invariant
            i <= a@.len(),
            a@.len() == b@.len(),
            forall|k: int| 0 <= k < i ==> a@[k] == b@[k],
        decreases a@.len() - i,
    {
        if a[i] != b[i] {
            return false;
        }
        i = i + 1;
    }
    proof {
        assert(a@ =~= b@);
    }
    true
}

/// Copies `s[a..b]` out.
fn copy_seg(s: &[u8], a: usize, b: usize) -> (r: Vec<u8>)
    requires
        a <= b <= s@.len(),
    ensures
        r@ == s@.subrange(a as int, b as int),
{
    let mut r: Vec<u8> = Vec::new();
    let mut i: usize = a;
    while i < b
        invariant
            a <= i <= b <= s@.len(),
            r@ == s@.subrange(a as int, i as int),
        decreases b - i,
    {
        r.push(s[i]);
        proof {
            assert(r@ =~= s@.subrange(a as int, i as int + 1));
        }
        i = i + 1;
    }
    r
}

/// The views of a sequence of segments.
pub open spec fn seg_views(v: Seq<Vec<u8>>) -> Seq<Seq<u8>> {
    v.map_values(|x: Vec<u8>| x@)
}

/// Splits `s` into its segments.
fn segments_of(s: &[u8]) -> (r: Vec<Vec<u8>>)
    ensures
        seg_views(r@) == spec_segments(s@),
{
    let mut segs: Vec<Vec<u8>> = Vec::new();
    let mut i: usize = 0;
    proof {
        assert(seg_views(segs@) + spec_segments_from(s@, 0) =~= spec_segments(s@));
    }
    while i < s.len()
        invariant
            i <= s@.len(),
            seg_views(segs@) + spec_segments_from(s@, i as int) == spec_segments(s@),
        decreases s@.len() - i,
    {
        if s[i] == 47 {
            i = i + 1;
        } else {
            let mut e: usize = i;
            while e < s.len() && s[e] != 47
                invariant
                    i <= e <= s@.len(),
                    seg_end(s@, i as int) == seg_end(s@, e as int),
                decreases s@.len() - e,
            {
                e = e + 1;
            }
            proof {
                assert(seg_end(s@, e as int) == e);
                lemma_seg_end_bounds(s@, i as int);
            }
            let seg = copy_seg(s, i, e);
            let ghost before = segs@;
            segs.push(seg);
            proof {
                assert(seg_views(segs@) =~= seg_views(before) + seq![seg@]);
                assert(seg_views(before) + (seq![s@.subrange(i as int, e as int)]
                    + spec_segments_from(s@, e as int)) =~= (seg_views(before) + seq![
                    s@.subrange(i as int, e as int),
                ]) + spec_segments_from(s@, e as int));
            }
            i = e;
        }
    }
    proof {
        assert(seg_views(segs@) + Seq::<Seq<u8>>::empty() =~= seg_views(segs@));
    }
    segs
}

/// Whether the filter `subscription` covers the topic `topic`.
pub fn listens_to_topic(subscription: &[u8], topic: &[u8]) -> (r: bool)
    ensures
        r == spec_matches(subscription@, topic@),
{
    let f = segments_of(subscription);
    let t = segments_of(topic);
    let ghost fs = seg_views(f@);
    let ghost ts = seg_views(t@);
    proof {
        assert(fs.skip(0) =~= fs);
        assert(ts.skip(0) =~= ts);
    }
    let mut i: usize = 0;
    loop
        invariant
            i <= f@.len(),
            i <= t@.len(),
            fs == seg_views(f@),
            ts == seg_views(t@),
            fs.len() == f@.len(),
            ts.len() == t@.len(),
            fs == spec_segments(subscription@),
            ts == spec_segments(topic@),
            spec_matches_segs(fs.skip(i as int), ts.skip(i as int)) == spec_matches_segs(fs, ts),
        decreases fs.len() - i,
    {
        if i == f.len() {
            proof {
                assert(fs.skip(i as int) =~= Seq::<Seq<u8>>::empty());
            }
            return i == t.len();
        }
        proof {
            assert(fs.skip(i as int)[0] == fs[i as int] && fs[i as int] == f@[i as int]@);
        }
        let fseg = &f[i];
        if fseg.len() == 1 && fseg[0] == 35 {
            proof {
                assert(f@[i as int]@ =~= hash_seg());
            }
            return true;
        }
        proof {
            if f@[i as int]@ == hash_seg() {
                assert(f@[i as int]@.len() == 1 && f@[i as int]@[0] == 35);
            }
        }
        if i == t.len() {
            proof {
                assert(ts.skip(i as int) =~= Seq::<Seq<u8>>::empty());
                assert(fs.skip(i as int).len() > 0);
            }
            return false;
        }
        proof {
            assert(ts.skip(i as int)[0] == ts[i as int] && ts[i as int] == t@[i as int]@);
        }
        let is_plus = fseg.len() == 1 && fseg[0] == 43;
        proof {
            if is_plus {
                assert(f@[i as int]@ =~= plus_seg());
            } else {
                if f@[i as int]@ == plus_seg() {
                    assert(f@[i as int]@.len() == 1 && f@[i as int]@[0] == 43);
                }
            }
        }
        if is_plus || bytes_eq(fseg.as_slice(), t[i].as_slice()) {
            proof {
                assert(fs.skip(i as int).drop_first() =~= fs.skip(i as int + 1));
                assert(ts.skip(i as int).drop_first() =~= ts.skip(i as int + 1));
            }
            i = i + 1;
        } else {
            return false;
        }
    }
}

/// What the table holds: each pair of filter bytes and subscriber id.
pub uninterp spec fn table_set(s: &heapless::FnvIndexSet<(Vec<u8>, usize), TREE_SIZE>) -> Set<
    (Seq<u8>, int),
>;

#[verifier::external_type_specification]
#[verifier::external_body]
#[verifier::reject_recursive_types(T)]
#[verifier::reject_recursive_types(S)]
pub struct ExIndexSet<T, S, const N: usize>(heapless::IndexSet<T, S, N>);

#[verifier::external_type_specification]
#[verifier::external_body]
#[verifier::reject_recursive_types(H)]
pub struct ExBuildHasherDefault<H>(hash32::BuildHasherDefault<H>);

#[verifier::external_type_specification]
#[verifier::external_body]
pub struct ExFnvHasher(hash32::FnvHasher);

/// Relies on `heapless::IndexSet::new`: a new set is empty.
#[verifier::external_body]
fn table_new() -> (r: heapless::FnvIndexSet<(Vec<u8>, usize), TREE_SIZE>)
    ensures
        table_set(&r) == Set::<(Seq<u8>, int)>::empty(),
{
    heapless::FnvIndexSet::new()
}

/// Relies on `heapless::IndexSet::insert`: the pair is added and `Ok(true)`
/// returned when room is left; a pair already present leaves the set as it
/// was with `Ok(false)`, also at capacity; `Err` comes exactly when the set
/// is full and the pair absent.
#[verifier::external_body]
fn table_insert(
    s: &mut heapless::FnvIndexSet<(Vec<u8>, usize), TREE_SIZE>,
    filter: Vec<u8>,
    id: usize,
) -> (r: Result<bool, ()>)
    ensures
        match r {
            Ok(added) => {
                &&& table_set(final(s)) == table_set(old(s)).insert((filter@, id as int))
                &&& added == !table_set(old(s)).contains((filter@, id as int))
                &&& added ==> table_set(old(s)).len() < TREE_SIZE
            },
            Err(_) => {
                &&& table_set(final(s)) == table_set(old(s))
                &&& !table_set(old(s)).contains((filter@, id as int))
                &&& table_set(old(s)).len() >= TREE_SIZE
            },
        },
{
    match s.insert((filter, id)) {
        Ok(added) => Ok(added),
        Err(_) => Err(()),
    }
}

/// Relies on `heapless::IndexSet::remove`: the pair is removed if present,
/// and the return says whether it was.
#[verifier::external_body]
fn table_remove(
    s: &mut heapless::FnvIndexSet<(Vec<u8>, usize), TREE_SIZE>,
    filter: &Vec<u8>,
    id: usize,
) -> (r: bool)
    ensures
        table_set(final(s)) == table_set(old(s)).remove((filter@, id as int)),
        r == table_set(old(s)).contains((filter@, id as int)),
{
    s.remove(&(filter.clone(), id))
}

/// Whether the entry belongs to a subscriber other than `id`.
fn keeps_entry(entry: &(Vec<u8>, usize), id: usize) -> (r: bool)
    ensures
        r == (entry.1 != id),
{
    entry.1 != id
}

/// Relies on `heapless::IndexSet::retain`: exactly the elements the
/// predicate accepts stay; the predicate keeps the pairs of other ids.
#[verifier::external_body]
fn table_remove_id(s: &mut heapless::FnvIndexSet<(Vec<u8>, usize), TREE_SIZE>, id: usize)
    ensures
        table_set(final(s)) == table_set(old(s)).filter(
            |e: (Seq<u8>, int)| e.1 != id as int,
        ),
{
    s.retain(|e| keeps_entry(e, id));
}

/// Relies on `heapless::IndexSet::iter`: every element is yielded exactly
/// once; the wrapper copies each out.
#[verifier::external_body]
fn table_entries(s: &heapless::FnvIndexSet<(Vec<u8>, usize), TREE_SIZE>) -> (r: Vec<
    (Vec<u8>, usize),
>)
    ensures
        entry_views(r@).to_set() == table_set(s),
{
    let mut out: Vec<(Vec<u8>, usize)> = Vec::new();
    for e in s.iter() {
        out.push((e.0.clone(), e.1));
    }
    out
}

/// The views of a sequence of table entries.
pub open spec fn entry_views(v: Seq<(Vec<u8>, usize)>) -> Seq<(Seq<u8>, int)> {
    v.map_values(|e: (Vec<u8>, usize)| (e.0@, e.1 as int))
}

/// The set of `(filter, subscriber id)` pairs, with bounded capacity.
pub struct TopicsList {
    topics: heapless::FnvIndexSet<(Vec<u8>, usize), TREE_SIZE>,
}

impl View for TopicsList {
    type V = Set<(Seq<u8>, int)>;

    /// The pairs currently subscribed.
    closed spec fn view(&self) -> Set<(Seq<u8>, int)> {
        table_set(&self.topics)
    }
}

impl TopicsList {
    /// The table stays finite, within capacity, and holds only pairs whose
    /// filter fits the length bound and whose id is a legal subscriber.
    pub open spec fn wf(&self) -> bool {
        &&& self@.finite()
        &&& self@.len() <= TREE_SIZE
        &&& forall|e: (Seq<u8>, int)|
            self@.contains(e) ==> e.0.len() <= MAX_TOPIC_LENGTH && 0 <= e.1 < MAX_CONNECTIONS
    }

    pub fn new() -> (r: Self)
        ensures
            r.wf(),
            r@ == Set::<(Seq<u8>, int)>::empty(),
    {
        TopicsList { topics: table_new() }
    }

    /// How many pairs are subscribed.
    pub fn is_empty(&self) -> (r: bool)
        requires
            self.wf(),
        ensures
            r == (self@ =~= Set::<(Seq<u8>, int)>::empty()),
    {
        let entries = table_entries(&self.topics);
        let r = entries.len() == 0;
        proof {
            if entries@.len() == 0 {
                assert(entry_views(entries@) =~= Seq::<(Seq<u8>, int)>::empty());
                assert(entry_views(entries@).to_set() =~= Set::<(Seq<u8>, int)>::empty());
            } else {
                let e = entry_views(entries@)[0];
                assert(entry_views(entries@).to_set().contains(e));
            }
        }
        r
    }

    /// Subscribes `id` to `filter`. Inserting a pair twice leaves the set
    /// unchanged. Fails with `TopicTooLong` on an over-long filter and
    /// with `Full` when the table is at capacity and the pair is new.
    pub fn insert(&mut self, filter: &[u8], id: usize) -> (r: Result<(), TopicsError>)
        requires
            old(self).wf(),
            id < MAX_CONNECTIONS,
        ensures
            final(self).wf(),
            match r {
                Ok(_) => {
                    &&& filter@.len() <= MAX_TOPIC_LENGTH
                    &&& final(self)@ == old(self)@.insert((filter@, id as int))
                },
                Err(TopicsError::TopicTooLong) => filter@.len() > MAX_TOPIC_LENGTH
                    && final(self)@ == old(self)@,
                Err(TopicsError::Full) => {
                    &&& filter@.len() <= MAX_TOPIC_LENGTH
                    &&& final(self)@ == old(self)@
                    &&& !old(self)@.contains((filter@, id as int))
                    &&& old(self)@.len() >= TREE_SIZE
                },
            },
    {
        if filter.len() > MAX_TOPIC_LENGTH {
            return Err(TopicsError::TopicTooLong);
        }
        let mut key: Vec<u8> = Vec::new();
        key.extend_from_slice(filter);
        proof {
            assert(key@ =~= filter@);
        }
        match table_insert(&mut self.topics, key, id) {
            Ok(_) => {
                proof {
                    vstd::set_lib::lemma_len_union::<(Seq<u8>, int)>(
                        old(self)@,
                        Set::empty().insert((filter@, id as int)),
                    );
                }
                Ok(())
            },
            Err(_) => Err(TopicsError::Full),
        }
    }

    /// Removes the exact `(filter, id)` pair; removing an absent pair is a
    /// no-op.
    pub fn remove(&mut self, filter: &[u8], id: usize)
        requires
            old(self).wf(),
        ensures
            final(self).wf(),
            final(self)@ == old(self)@.remove((filter@, id as int)),
    {
        let mut key: Vec<u8> = Vec::new();
        key.extend_from_slice(filter);
        proof {
            assert(key@ =~= filter@);
        }
        table_remove(&mut self.topics, &key, id);
        proof {
            vstd::set_lib::lemma_len_subset::<(Seq<u8>, int)>(self@, old(self)@);
        }
    }

    /// Removes every pair owned by `id`.
    pub fn remove_all_subscriptions(&mut self, id: usize)
        requires
            old(self).wf(),
        ensures
            final(self).wf(),
            final(self)@ == old(self)@.filter(|e: (Seq<u8>, int)| e.1 != id as int),
            forall|e: (Seq<u8>, int)| final(self)@.contains(e) ==> e.1 != id as int,
    {
        table_remove_id(&mut self.topics, id);
        proof {
            vstd::set_lib::lemma_len_subset::<(Seq<u8>, int)>(self@, old(self)@);
        }
    }

    /// The subscribers whose filters cover `topic`, as a bitset.
    pub fn get_subscribed(&self, topic: &[u8]) -> (r: BitSet)
        requires
            self.wf(),
        ensures
            r@.len() == MAX_CONNECTIONS,
            forall|id: int|
                0 <= id < MAX_CONNECTIONS ==> (r@[id] <==> exists|f: Seq<u8>|
                    self@.contains((f, id)) && spec_matches(f, topic@)),
    {
        let entries = table_entries(&self.topics);
        let ghost views = entry_views(entries@);
        let mut subscribers = BitSet::new();
        let mut k: usize = 0;
        while k < entries.len()
            invariant
                k <= entries@.len(),
                views == entry_views(entries@),
                views.to_set() == self@,
                self.wf(),
                subscribers@.len() == MAX_CONNECTIONS,
                forall|id: int|
                    0 <= id < MAX_CONNECTIONS ==> (subscribers@[id] <==> exists|j: int|
                        0 <= j < k && views[j].1 == id && spec_matches(views[j].0, topic@)),
            decreases entries@.len() - k,
        {
            proof {
                assert(views[k as int] == (entries@[k as int].0@, entries@[k as int].1 as int));
                assert(views.to_set().contains(views[k as int]));
                assert(self@.contains(views[k as int]));
            }
            let ghost prev = subscribers@;
            if listens_to_topic(entries[k].0.as_slice(), topic) {
                subscribers.set(entries[k].1);
            }
            proof {
                assert forall|id: int|
                    0 <= id < MAX_CONNECTIONS implies (subscribers@[id] <==> exists|j: int|
                    0 <= j < k + 1 && views[j].1 == id && spec_matches(views[j].0, topic@)) by {
                    if subscribers@[id] {
                        if prev[id] {
                            let j = choose|j: int|
                                0 <= j < k && views[j].1 == id && spec_matches(
                                    views[j].0,
                                    topic@,
                                );
                            assert(views[j].1 == id && spec_matches(views[j].0, topic@));
                        } else {
                            assert(views[k as int].1 == id && spec_matches(
                                views[k as int].0,
                                topic@,
                            ));
                        }
                    }
                }
            }
            k = k + 1;
        }
        proof {
            assert forall|id: int|
                0 <= id < MAX_CONNECTIONS implies (subscribers@[id] <==> exists|f: Seq<u8>|
                self@.contains((f, id)) && spec_matches(f, topic@)) by {
                if subscribers@[id] {
                    let j = choose|j: int|
                        0 <= j < views.len() && views[j].1 == id && spec_matches(
                            views[j].0,
                            topic@,
                        );
                    assert(views.to_set().contains(views[j]));
                    assert(self@.contains((views[j].0, id)));
                } else {
                    if exists|f: Seq<u8>| self@.contains((f, id)) && spec_matches(f, topic@) {
                        let f = choose|f: Seq<u8>|
                            self@.contains((f, id)) && spec_matches(f, topic@);
                        assert(views.to_set().contains((f, id)));
                        let j = choose|j: int| 0 <= j < views.len() && views[j] == (f, id);
                        assert(views[j].1 == id && spec_matches(views[j].0, topic@));
                    }
                }
            }
        }
        subscribers
    }
}

/// Law: subscribing twice to the same pair has the effect of one
/// subscription.
pub proof fn lemma_insert_idempotent(topics: Set<(Seq<u8>, int)>, f: Seq<u8>, id: int)
    ensures
        topics.insert((f, id)).insert((f, id)) == topics.insert((f, id)),
{
    assert(topics.insert((f, id)).insert((f, id)) =~= topics.insert((f, id)));
}

/// Law: removing a pair that is not subscribed changes nothing.
pub proof fn lemma_remove_absent(topics: Set<(Seq<u8>, int)>, f: Seq<u8>, id: int)
    requires
        !topics.contains((f, id)),
    ensures
        topics.remove((f, id)) == topics,
{
    assert(topics.remove((f, id)) =~= topics);
}

/// Adding `/#` to a filter only widens what it matches: every topic the
/// filter covers, the extended filter covers too.
pub proof fn lemma_hash_suffix_widens(g: Seq<u8>, t: Seq<u8>)
    requires
        spec_matches(g, t),
    ensures
        spec_matches(g + seq![47u8, 35u8], t),
{
    lemma_segments_with_hash(g);
    lemma_segs_hash_widens(spec_segments(g), spec_segments(t));
}

/// Where the topic goes no deeper than the filter, a match of the
/// `/#`-extended filter is already a match of the filter itself. (A topic
/// deeper than the filter can be covered by the `#` alone.)
pub proof fn lemma_hash_suffix_monotone(g: Seq<u8>, t: Seq<u8>)
    requires
        spec_matches(g + seq![47u8, 35u8], t),
        spec_segments(t).len() <= spec_segments(g).len(),
    ensures
        spec_matches(g, t),
{
    lemma_segments_with_hash(g);
    lemma_segs_hash_monotone(spec_segments(g), spec_segments(t));
}

proof fn lemma_segs_hash_widens(f: Seq<Seq<u8>>, t: Seq<Seq<u8>>)
    requires
        spec_matches_segs(f, t),
    ensures
        spec_matches_segs(f + seq![hash_seg()], t),
    decreases f.len(),
{
    if f.len() == 0 {
        assert((f + seq![hash_seg()])[0] == hash_seg());
    } else {
        assert((f + seq![hash_seg()])[0] == f[0]);
        if f[0] == hash_seg() {
        } else if f[0] == plus_seg() || f[0] == t[0] {
            assert((f + seq![hash_seg()]).drop_first() =~= f.drop_first() + seq![hash_seg()]);
            lemma_segs_hash_widens(f.drop_first(), t.drop_first());
        }
    }
}

proof fn lemma_segs_hash_monotone(f: Seq<Seq<u8>>, t: Seq<Seq<u8>>)
    requires
        spec_matches_segs(f + seq![hash_seg()], t),
        t.len() <= f.len(),
    ensures
        spec_matches_segs(f, t),
    decreases f.len(),
{
    if f.len() == 0 {
        assert(t.len() == 0);
    } else {
        assert((f + seq![hash_seg()])[0] == f[0]);
        if f[0] == hash_seg() {
        } else if t.len() == 0 {
            assert((f + seq![hash_seg()]).len() > 0);
        } else if f[0] == plus_seg() || f[0] == t[0] {
            assert((f + seq![hash_seg()]).drop_first() =~= f.drop_first() + seq![hash_seg()]);
            lemma_segs_hash_monotone(f.drop_first(), t.drop_first());
        }
    }
}

/// The segments of `g + "/#"` are the segments of `g` followed by `#`.
proof fn lemma_segments_with_hash(g: Seq<u8>)
    ensures
        spec_segments(g + seq![47u8, 35u8]) == spec_segments(g) + seq![hash_seg()],
{
    lemma_segments_with_hash_from(g, 0);
}

proof fn lemma_segments_with_hash_from(g: Seq<u8>, i: int)
    requires
        0 <= i <= g.len(),
    ensures
        spec_segments_from(g + seq![47u8, 35u8], i) == spec_segments_from(g, i) + seq![
            hash_seg(),
        ],
    decreases g.len() - i,
{
    let e = g + seq![47u8, 35u8];
    if i == g.len() {
        assert(e.len() == i + 2);
        assert(e[i] == slash());
        assert(e[i + 1] == 35u8 && e[i + 1] != slash());
        assert(seg_end(e, i + 2) == e.len());
        assert(seg_end(e, i + 1) == seg_end(e, i + 2));
        assert(e.subrange(i + 1, e.len() as int) =~= hash_seg());
        assert(spec_segments_from(e, i + 2) =~= Seq::<Seq<u8>>::empty());
        assert(spec_segments_from(g, i) =~= Seq::<Seq<u8>>::empty());
        assert(spec_segments_from(e, i) == spec_segments_from(e, i + 1));
        assert(spec_segments_from(e, i + 1) =~= seq![e.subrange(i + 1, e.len() as int)]
            + spec_segments_from(e, i + 2));
        assert(spec_segments_from(e, i) =~= spec_segments_from(g, i) + seq![hash_seg()]);
    } else {
        assert(e[i] == g[i]);
        if g[i] == slash() {
            lemma_segments_with_hash_from(g, i + 1);
        } else {
            lemma_seg_end_same(g, i);
            lemma_seg_end_bounds(g, i);
            let se = seg_end(g, i);
            assert(e.subrange(i, se) =~= g.subrange(i, se));
            lemma_segments_with_hash_from(g, se);
            assert((seq![g.subrange(i, se)] + spec_segments_from(g, se)) + seq![hash_seg()]
                =~= seq![g.subrange(i, se)] + (spec_segments_from(g, se) + seq![hash_seg()]));
        }
    }
}

/// Inside `g`, segment ends are the same in `g` and in `g + "/#"`.
proof fn lemma_seg_end_same(g: Seq<u8>, i: int)
    requires
        0 <= i <= g.len(),
    ensures
        seg_end(g + seq![47u8, 35u8], i) == seg_end(g, i),
    decreases g.len() - i,
{
    let e = g + seq![47u8, 35u8];
    if i == g.len() {
        assert(e[i] == slash());
    } else {
        assert(e[i] == g[i]);
        if g[i] != slash() {
            lemma_seg_end_same(g, i + 1);
        }
    }
}

} // verus!
