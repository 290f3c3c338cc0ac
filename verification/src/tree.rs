//! The snapshot collection: a mapping from item identity (a byte-string key)
//! to its captured [`FileState`], with build, query, exclusion, and the
//! sequence-to-map model that the contracts are stated over.

use vstd::prelude::*;

use crate::codec::DecodeError;
use crate::codec::copy_range;
use crate::codec::dec_entries_at;
use crate::codec::dec_entry_at;
use crate::codec::dec_state_at;
use crate::codec::dec_u64_at;
use crate::codec::enc_entries;
use crate::codec::enc_entry;
use crate::codec::lemma_enc_entries_push;
use crate::codec::opt_prepend;
use crate::codec::push_bytes;
use crate::codec::push_u32;
use crate::codec::push_u64;
use crate::codec::read_u32_at;
use crate::codec::read_u64_at;
use crate::codec::spec_decode_raw;
use crate::codec::spec_encode;
use crate::state::Digest;
use crate::state::FileState;
use crate::state::Observation;
use crate::state::State;
use crate::state::Timestamp;
use crate::state::file_capture;
use crate::state::file_changed;
use vstd::bytes::spec_u64_to_le_bytes;

verus! {

/// The view of a stored entry list: each key as its byte sequence.
pub open spec fn entry_views(s: Seq<(Vec<u8>, FileState)>) -> Seq<(Seq<u8>, FileState)> {
    s.map(|i: int, e: (Vec<u8>, FileState)| (e.0@, e.1))
}

/// The view of an observation list: each key as its byte sequence.
pub open spec fn obs_views(s: Seq<(Vec<u8>, Observation)>) -> Seq<(Seq<u8>, Observation)> {
    s.map(|i: int, e: (Vec<u8>, Observation)| (e.0@, e.1))
}

/// No two entries share a key.
pub open spec fn keys_unique(es: Seq<(Seq<u8>, FileState)>) -> bool {
    forall|i: int, j: int| 0 <= i < j < es.len() ==> es[i].0 != es[j].0
}

/// Entry `i` exists and carries key `k`.
pub open spec fn key_at(es: Seq<(Seq<u8>, FileState)>, i: int, k: Seq<u8>) -> bool {
    0 <= i < es.len() && es[i].0 == k
}

/// Some entry carries key `k`.
pub open spec fn has_key(es: Seq<(Seq<u8>, FileState)>, k: Seq<u8>) -> bool {
    exists|i: int| key_at(es, i, k)
}

/// The mapping that an entry list denotes; on duplicate keys the later entry
/// wins, as with repeated insertion.
pub open spec fn map_of(es: Seq<(Seq<u8>, FileState)>) -> Map<Seq<u8>, FileState>
    decreases es.len(),
{
    if es.len() == 0 {
        Map::empty()
    } else {
        map_of(es.drop_last()).insert(es.last().0, es.last().1)
    }
}

/// Dropping the last entry keeps the keys unique.
proof fn lemma_unique_drop_last(es: Seq<(Seq<u8>, FileState)>)
    requires
        keys_unique(es),
        es.len() > 0,
    ensures
        keys_unique(es.drop_last()),
{
}

/// Under unique keys, each entry is present in the denoted map with its own
/// state.
pub proof fn lemma_map_of_index(es: Seq<(Seq<u8>, FileState)>, i: int)
    requires
        keys_unique(es),
        0 <= i < es.len(),
    ensures
        map_of(es).contains_key(es[i].0),
        map_of(es)[es[i].0] == es[i].1,
    decreases es.len(),
{
    if i < es.len() - 1 {
        lemma_unique_drop_last(es);
        lemma_map_of_index(es.drop_last(), i);
        assert(es[i].0 != es.last().0);
    }
}

/// A key is in the denoted map exactly when some entry carries it.
pub proof fn lemma_map_of_contains(es: Seq<(Seq<u8>, FileState)>, k: Seq<u8>)
    ensures
        map_of(es).contains_key(k) <==> has_key(es, k),
    decreases es.len(),
{
    if es.len() == 0 {
        assert(!has_key(es, k)) by {
            assert(forall|i: int| !key_at(es, i, k));
        }
    } else {
        lemma_map_of_contains(es.drop_last(), k);
        if es.last().0 == k {
            assert(key_at(es, es.len() - 1, k));
        } else {
            if map_of(es).contains_key(k) {
                let i = choose|i: int| key_at(es.drop_last(), i, k);
                assert(key_at(es, i, k));
            }
            if has_key(es, k) {
                let i = choose|i: int| key_at(es, i, k);
                assert(i < es.len() - 1);
                assert(key_at(es.drop_last(), i, k));
            }
        }
    }
}

/// Appending an entry denotes insertion into the map.
pub proof fn lemma_map_of_push(es: Seq<(Seq<u8>, FileState)>, k: Seq<u8>, v: FileState)
    ensures
        map_of(es.push((k, v))) == map_of(es).insert(k, v),
{
    assert(es.push((k, v)).drop_last() =~= es);
    assert(es.push((k, v)).last() == (k, v));
}

/// Under unique keys, removing entry `i` denotes removal of its key, and
/// keeps the remaining keys unique.
pub proof fn lemma_map_of_remove(es: Seq<(Seq<u8>, FileState)>, i: int)
    requires
        keys_unique(es),
        0 <= i < es.len(),
    ensures
        map_of(es.remove(i)) == map_of(es).remove(es[i].0),
        keys_unique(es.remove(i)),
    decreases es.len(),
{
    let k = es[i].0;
    assert(forall|j: int| 0 <= j < es.len() - 1 ==> es.remove(i)[j] == if j < i {
        es[j]
    } else {
        es[j + 1]
    });
    if i == es.len() - 1 {
        assert(es.remove(i) =~= es.drop_last());
        lemma_unique_drop_last(es);
        lemma_map_of_contains(es.drop_last(), k);
        assert(!has_key(es.drop_last(), k)) by {
            if has_key(es.drop_last(), k) {
                let j = choose|j: int| key_at(es.drop_last(), j, k);
                assert(es[j].0 == es[i].0);
            }
        }
        assert(map_of(es).remove(k) =~= map_of(es.drop_last()));
    } else {
        lemma_unique_drop_last(es);
        lemma_map_of_remove(es.drop_last(), i);
        assert(es.remove(i).drop_last() =~= es.drop_last().remove(i));
        assert(es.remove(i).last() == es.last());
        assert(es[i].0 != es.last().0);
        assert(map_of(es.drop_last()).remove(k).insert(es.last().0, es.last().1) =~= map_of(
            es.drop_last(),
        ).insert(es.last().0, es.last().1).remove(k));
    }
}

/// The mapping that building over an observation list denotes: capture each
/// observation, keep the pair only when capture succeeds, later entries win.
pub open spec fn build_map(items: Seq<(Seq<u8>, Observation)>) -> Map<Seq<u8>, FileState>
    decreases items.len(),
{
    if items.len() == 0 {
        Map::empty()
    } else {
        let m = build_map(items.drop_last());
        match file_capture(items.last().1) {
            None => m,
            Some(s) => m.insert(items.last().0, s),
        }
    }
}

/// The observation a live list gives for key `k`: the first entry with that
/// key, or `Missing` when the key does not occur.
pub open spec fn obs_lookup(live: Seq<(Seq<u8>, Observation)>, k: Seq<u8>) -> Observation
    decreases live.len(),
{
    if live.len() == 0 {
        Observation::Missing
    } else if live[0].0 == k {
        live[0].1
    } else {
        obs_lookup(live.drop_first(), k)
    }
}

/// Whether, against a list of live observations, at least one tracked entry
/// counts as changed under the per-item rule.
pub open spec fn any_changed(m: Map<Seq<u8>, FileState>, live: Seq<(Seq<u8>, Observation)>) -> bool {
    exists|k: Seq<u8>| #[trigger] m.contains_key(k) && file_changed(m[k], obs_lookup(live, k))
}

/// Byte-string equality of two keys.
fn key_eq(a: &Vec<u8>, b: &Vec<u8>) -> (r: bool)
    ensures
        r == (a@ == b@),
{
    if a.len() != b.len() {
        return false;
    }
    let mut i: usize = 0;
    while i < a.len()
        invariant
            i <= a@.len(),
            a@.len() == b@.len(),
            forall|j: int| 0 <= j < i ==> a@[j] == b@[j],
        decreases a@.len() - i,
    {
        if a[i] != b[i] {
            return false;
        }
        i = i + 1;
    }
    proof {
        assert(a@ =~= b@);
    }
    true
}

/// An owned copy of a key.
fn clone_key(k: &Vec<u8>) -> (r: Vec<u8>)
    ensures
        r@ == k@,
{
    let mut r: Vec<u8> = Vec::new();
    let mut i: usize = 0;
    while i < k.len()
        invariant
            i <= k@.len(),
            r@ == k@.take(i as int),
        decreases k@.len() - i,
    {
        r.push(k[i]);
        proof {
            assert(k@.take(i + 1 as int) =~= k@.take(i as int).push(k@[i as int]));
        }
        i = i + 1;
    }
    proof {
        assert(k@.take(k@.len() as int) =~= k@);
    }
    r
}

/// The index of the entry carrying key `k`, if any.
fn find_index(es: &Vec<(Vec<u8>, FileState)>, k: &Vec<u8>) -> (r: Option<usize>)
    ensures
        match r {
            Some(i) => key_at(entry_views(es@), i as int, k@),
            None => !has_key(entry_views(es@), k@),
        },
{
    let mut i: usize = 0;
    while i < es.len()
        invariant
            i <= es@.len(),
            forall|j: int| 0 <= j < i ==> entry_views(es@)[j].0 != k@,
        decreases es@.len() - i,
    {
        if key_eq(&es[i].0, k) {
            return Some(i);
        }
        i = i + 1;
    }
    proof {
        if has_key(entry_views(es@), k@) {
            let j = choose|j: int| key_at(entry_views(es@), j, k@);
        }
    }
    None
}

/// Whether two entries share a key.
fn find_duplicate(es: &Vec<(Vec<u8>, FileState)>) -> (r: bool)
    ensures
        r == !keys_unique(entry_views(es@)),
{
    let ghost ev = entry_views(es@);
    let mut i: usize = 0;
    while i < es.len()
        invariant
            i <= ev.len(),
            ev == entry_views(es@),
            forall|x: int, y: int| 0 <= x < y < ev.len() && x < i ==> ev[x].0 != ev[y].0,
        decreases ev.len() - i,
    {
        let mut j: usize = i + 1;
        while j < es.len()
            invariant
                i < es@.len(),
                i + 1 <= j <= ev.len(),
                ev == entry_views(es@),
                forall|x: int, y: int| 0 <= x < y < ev.len() && x < i ==> ev[x].0 != ev[y].0,
                forall|y: int| i < y < j ==> ev[i as int].0 != ev[y].0,
            decreases ev.len() - j,
        {
            if key_eq(&es[i].0, &es[j].0) {
                proof {
                    if keys_unique(ev) {
                        assert(ev[i as int].0 != ev[j as int].0);
                    }
                }
                return true;
            }
            j = j + 1;
        }
        i = i + 1;
    }
    false
}

/// The first observation recorded for key `k`, or `Missing` when none is.
fn lookup_obs(live: &Vec<(Vec<u8>, Observation)>, k: &Vec<u8>) -> (r: Observation)
    ensures
        r == obs_lookup(obs_views(live@), k@),
{
    let ghost lv = obs_views(live@);
    proof {
        assert(lv.skip(0) =~= lv);
    }
    let mut i: usize = 0;
    while i < live.len()
        invariant
            i <= live@.len(),
            lv == obs_views(live@),
            obs_lookup(lv, k@) == obs_lookup(lv.skip(i as int), k@),
        decreases live@.len() - i,
    {
        proof {
            assert(lv.skip(i as int)[0] == lv[i as int]);
            assert(lv.skip(i as int).drop_first() =~= lv.skip(i as int + 1));
        }
        if key_eq(&live[i].0, k) {
            return live[i].1;
        }
        i = i + 1;
    }
    proof {
        assert(lv.skip(live@.len() as int) =~= Seq::<(Seq<u8>, Observation)>::empty());
    }
    Observation::Missing
}

/// Under unique keys, the denoted map has exactly one element per entry.
pub proof fn lemma_map_of_len(es: Seq<(Seq<u8>, FileState)>)
    requires
        keys_unique(es),
    ensures
        map_of(es).dom().finite(),
        map_of(es).dom().len() == es.len(),
    decreases es.len(),
{
    if es.len() > 0 {
        lemma_unique_drop_last(es);
        lemma_map_of_len(es.drop_last());
        lemma_map_of_contains(es.drop_last(), es.last().0);
        assert(!has_key(es.drop_last(), es.last().0)) by {
            if has_key(es.drop_last(), es.last().0) {
                let j = choose|j: int| key_at(es.drop_last(), j, es.last().0);
                assert(es[j].0 == es[es.len() - 1].0);
            }
        }
        assert(map_of(es).dom() =~= map_of(es.drop_last()).dom().insert(es.last().0));
        vstd::set_lib::lemma_len_union::<Seq<u8>>(
            map_of(es.drop_last()).dom(),
            vstd::prelude::Set::empty().insert(es.last().0),
        );
    }
}

/// A snapshot collection: the recorded state of every tracked item, keyed by
/// the item's identity. Its view is the denoted identity-to-state map.
#[derive(Debug)]
pub struct TreeState {
    entries: Vec<(Vec<u8>, FileState)>,
}

impl View for TreeState {
    type V = Map<Seq<u8>, FileState>;

    closed spec fn view(&self) -> Map<Seq<u8>, FileState> {
        map_of(entry_views(self.entries@))
    }
}

impl TreeState {
    /// The stored entries, as key views beside their states.
    pub closed spec fn entries_view(&self) -> Seq<(Seq<u8>, FileState)> {
        entry_views(self.entries@)
    }

    /// Well-formedness: no key is stored twice.
    pub closed spec fn wf(&self) -> bool {
        keys_unique(self.entries_view())
    }

    /// The view is the mapping its entries denote.
    pub proof fn lemma_view_is_entries(&self)
        ensures
            self@ == map_of(self.entries_view()),
    {
    }

    /// Record `v` under `k`, replacing a previous entry for `k` if present.
    fn insert_entry(&mut self, k: Vec<u8>, v: FileState)
        requires
            old(self).wf(),
        ensures
            final(self).wf(),
            final(self)@ == old(self)@.insert(k@, v),
    {
        match find_index(&self.entries, &k) {
            Some(i) => {
                proof {
                    lemma_map_of_remove(entry_views(self.entries@), i as int);
                    assert(entry_views(self.entries@.remove(i as int)) =~= entry_views(
                        self.entries@,
                    ).remove(i as int));
                }
                let ghost old_views = entry_views(self.entries@);
                self.entries.remove(i);
                proof {
                    assert(entry_views(self.entries@) =~= old_views.remove(i as int));
                    assert(map_of(entry_views(self.entries@)) == map_of(old_views).remove(k@));
                }
            },
            None => {
            },
        }
        let ghost mid_views = entry_views(self.entries@);
        let ghost kv = k@;
        proof {
            lemma_map_of_contains(mid_views, kv);
            lemma_map_of_push(mid_views, kv, v);
        }
        self.entries.push((k, v));
        proof {
            assert(entry_views(self.entries@) =~= mid_views.push((kv, v)));
            assert(keys_unique(entry_views(self.entries@))) by {
                assert(forall|j: int| 0 <= j < mid_views.len() ==> entry_views(
                    self.entries@,
                )[j] == mid_views[j]);
                assert(!has_key(mid_views, kv));
                assert forall|j: int| 0 <= j < mid_views.len() implies mid_views[j].0 != kv by {
                    if mid_views[j].0 == kv {
                        assert(key_at(mid_views, j, kv));
                    }
                }
            }
            assert(map_of(entry_views(self.entries@)) =~= old(self)@.insert(kv, v));
        }
    }

    /// Build a collection from already-captured (identity, state) pairs, as
    /// when capture ran concurrently upstream and the pairs were streamed in.
    pub fn from(pairs: &Vec<(Vec<u8>, FileState)>) -> (r: TreeState)
        ensures
            r.wf(),
            r@ == map_of(entry_views(pairs@)),
    {
        let mut r = TreeState { entries: Vec::new() };
        proof {
            assert(entry_views(r.entries@) =~= Seq::<(Seq<u8>, FileState)>::empty());
        }
        let mut i: usize = 0;
        while i < pairs.len()
            invariant
                i <= pairs@.len(),
                r.wf(),
                r@ == map_of(entry_views(pairs@).take(i as int)),
            decreases pairs@.len() - i,
        {
            let k = clone_key(&pairs[i].0);
            let v = pairs[i].1;
            r.insert_entry(k, v);
            proof {
                let pv = entry_views(pairs@);
                assert(pv.take(i + 1 as int).drop_last() =~= pv.take(i as int));
                assert(pv.take(i + 1 as int).last() == pv[i as int]);
            }
            i = i + 1;
        }
        proof {
            assert(entry_views(pairs@).take(pairs@.len() as int) =~= entry_views(pairs@));
        }
        r
    }

    /// Build a collection over an observation of each enumerated identity:
    /// capture each state, silently excluding items whose capture yields
    /// nothing.
    pub fn new(items: &Vec<(Vec<u8>, Observation)>) -> (r: TreeState)
        ensures
            r.wf(),
            r@ == build_map(obs_views(items@)),
    {
        let mut r = TreeState { entries: Vec::new() };
        proof {
            assert(entry_views(r.entries@) =~= Seq::<(Seq<u8>, FileState)>::empty());
        }
        let mut i: usize = 0;
        while i < items.len()
            invariant
                i <= items@.len(),
                r.wf(),
                r@ == build_map(obs_views(items@).take(i as int)),
            decreases items@.len() - i,
        {
            let captured: Option<FileState> = State::from(&items[i].1);
            match captured {
                None => {
                },
                Some(s) => {
                    let k = clone_key(&items[i].0);
                    r.insert_entry(k, s);
                },
            }
            proof {
                let ov = obs_views(items@);
                assert(ov.take(i + 1 as int).drop_last() =~= ov.take(i as int));
                assert(ov.take(i + 1 as int).last() == ov[i as int]);
            }
            i = i + 1;
        }
        proof {
            assert(obs_views(items@).take(items@.len() as int) =~= obs_views(items@));
        }
        r
    }

    /// Whether any tracked entry counts as changed against the given live
    /// observations: true as soon as one entry differs under the per-item
    /// rule, false when every entry agrees. An identity absent from `live`
    /// counts as missing.
    pub fn has_changed(&self, live: &Vec<(Vec<u8>, Observation)>) -> (r: bool)
        requires
            self.wf(),
        ensures
            r == any_changed(self@, obs_views(live@)),
    {
        let ghost lv = obs_views(live@);
        let mut i: usize = 0;
        while i < self.entries.len()
            invariant
                self.wf(),
                i <= self.entries@.len(),
                lv == obs_views(live@),
                forall|j: int|
                    0 <= j < i ==> !file_changed(
                        self.entries_view()[j].1,
                        obs_lookup(lv, self.entries_view()[j].0),
                    ),
            decreases self.entries@.len() - i,
        {
            let obs: Observation = lookup_obs(live, &self.entries[i].0);
            if self.entries[i].1.has_changed(&obs) {
                proof {
                    lemma_map_of_index(self.entries_view(), i as int);
                    let kw = self.entries_view()[i as int].0;
                    assert(self@.contains_key(kw) && file_changed(self@[kw], obs_lookup(lv, kw)));
                }
                return true;
            }
            i = i + 1;
        }
        proof {
            assert forall|k: Seq<u8>| self@.contains_key(k) implies !file_changed(
                self@[k],
                obs_lookup(lv, k),
            ) by {
                lemma_map_of_contains(self.entries_view(), k);
                let j = choose|j: int| key_at(self.entries_view(), j, k);
                lemma_map_of_index(self.entries_view(), j);
            }
        }
        false
    }

    /// The recorded state for `item`, if it is tracked.
    pub fn get(&self, item: &Vec<u8>) -> (r: Option<&FileState>)
        requires
            self.wf(),
        ensures
            match r {
                Some(s) => self@.contains_key(item@) && *s == self@[item@],
                None => !self@.contains_key(item@),
            },
    {
        match find_index(&self.entries, item) {
            Some(i) => {
                proof {
                    lemma_map_of_index(self.entries_view(), i as int);
                }
                Some(&self.entries[i].1)
            },
            None => {
                proof {
                    lemma_map_of_contains(self.entries_view(), item@);
                }
                None
            },
        }
    }

    /// The tracked identities, one per entry.
    pub fn keys(&self) -> (r: Vec<Vec<u8>>)
        ensures
            r@.len() == self.entries_view().len(),
            forall|i: int| 0 <= i < r@.len() ==> r@[i]@ == self.entries_view()[i].0,
    {
        let mut r: Vec<Vec<u8>> = Vec::new();
        let mut i: usize = 0;
        while i < self.entries.len()
            invariant
                i <= self.entries@.len(),
                r@.len() == i,
                forall|j: int| 0 <= j < i ==> r@[j]@ == self.entries_view()[j].0,
            decreases self.entries@.len() - i,
        {
            r.push(clone_key(&self.entries[i].0));
            i = i + 1;
        }
        r
    }

    /// How many items are tracked.
    pub fn len(&self) -> (r: usize)
        ensures
            r == self.entries_view().len(),
            self.wf() ==> r == self@.dom().len(),
    {
        proof {
            if self.wf() {
                lemma_map_of_len(self.entries_view());
            }
        }
        self.entries.len()
    }

    /// Serialize the collection to its persisted byte form.
    pub fn dump(&self) -> (r: Vec<u8>)
        ensures
            r@ == spec_encode(self.entries_view()),
    {
        let ghost ev = self.entries_view();
        let mut out: Vec<u8> = Vec::new();
        push_u64(&mut out, self.entries.len() as u64);
        let ghost head = spec_u64_to_le_bytes(ev.len() as u64);
        proof {
            assert(enc_entries(ev.take(0)) =~= Seq::<u8>::empty()) by {
                assert(ev.take(0) =~= Seq::<(Seq<u8>, FileState)>::empty());
            }
            assert(out@ =~= head + enc_entries(ev.take(0)));
        }
        let mut i: usize = 0;
        while i < self.entries.len()
            invariant
                i <= self.entries@.len(),
                ev == self.entries_view(),
                head == spec_u64_to_le_bytes(ev.len() as u64),
                out@ == head + enc_entries(ev.take(i as int)),
            decreases self.entries@.len() - i,
        {
            let ghost base = out@;
            push_u64(&mut out, self.entries[i].0.len() as u64);
            push_bytes(&mut out, &self.entries[i].0);
            let st = self.entries[i].1;
            push_u64(&mut out, st.len);
            push_u64(&mut out, st.modified.secs);
            push_u32(&mut out, st.modified.nanos);
            push_u64(&mut out, st.digest.w0);
            push_u64(&mut out, st.digest.w1);
            push_u64(&mut out, st.digest.w2);
            push_u64(&mut out, st.digest.w3);
            proof {
                assert(out@ =~= base + enc_entry(ev[i as int]));
                lemma_enc_entries_push(ev.take(i as int), ev[i as int]);
                assert(ev.take(i as int + 1) =~= ev.take(i as int).push(ev[i as int]));
                assert(out@ =~= head + enc_entries(ev.take(i as int + 1)));
            }
            i = i + 1;
        }
        proof {
            assert(ev.take(ev.len() as int) =~= ev);
        }
        out
    }

    /// Restore a collection from its persisted byte form. Fails with
    /// `Malformed` exactly when the bytes do not parse as the layout, and
    /// with `Duplicate` exactly when they parse but repeat a key.
    pub fn load(bytes: &Vec<u8>) -> (r: Result<TreeState, DecodeError>)
        ensures
            match r {
                Ok(t) => {
                    &&& t.wf()
                    &&& spec_decode_raw(bytes@) == Some(t.entries_view())
                    &&& t@ == map_of(t.entries_view())
                },
                Err(e) => match e {
                    DecodeError::Malformed => spec_decode_raw(bytes@) is None,
                    DecodeError::Duplicate => spec_decode_raw(bytes@) matches Some(es)
                        && !keys_unique(es),
                },
            },
    {
        let ghost bv = bytes@;
        if bytes.len() < 8 {
            return Err(DecodeError::Malformed);
        }
        let n: u64 = read_u64_at(bytes, 0);
        let mut acc: Vec<(Vec<u8>, FileState)> = Vec::new();
        let mut pos: usize = 8;
        let mut k: u64 = 0;
        proof {
            assert(entry_views(acc@) =~= Seq::<(Seq<u8>, FileState)>::empty());
            match dec_entries_at(bv, 8, n as nat) {
                None => {
                },
                Some((es, p)) => {
                    assert(Seq::<(Seq<u8>, FileState)>::empty() + es =~= es);
                },
            }
        }
        while k < n
            invariant
                8 <= pos <= bv.len(),
                k <= n,
                bv == bytes@,
                bv.len() >= 8,
                n == dec_u64_at(bv, 0),
                opt_prepend(entry_views(acc@), dec_entries_at(bv, pos as int, (n - k) as nat))
                    == dec_entries_at(bv, 8, n as nat),
            decreases n - k,
        {
            let avail = bytes.len() - pos;
            if avail < 8 {
                proof {
                    assert(dec_entry_at(bv, pos as int) is None);
                    assert(dec_entries_at(bv, pos as int, (n - k) as nat) is None);
                }
                return Err(DecodeError::Malformed);
            }
            let klen64 = read_u64_at(bytes, pos);
            proof {
                assert(klen64 == dec_u64_at(bv, pos as int));
            }
            if klen64 > (avail - 8) as u64 {
                proof {
                    assert(dec_entry_at(bv, pos as int) is None);
                    assert(dec_entries_at(bv, pos as int, (n - k) as nat) is None);
                }
                return Err(DecodeError::Malformed);
            }
            let klen = klen64 as usize;
            if avail - 8 - klen < 52 {
                proof {
                    assert(dec_entry_at(bv, pos as int) is None);
                    assert(dec_entries_at(bv, pos as int, (n - k) as nat) is None);
                }
                return Err(DecodeError::Malformed);
            }
            let key = copy_range(bytes, pos + 8, pos + 8 + klen);
            let base = pos + 8 + klen;
            let st = FileState {
                len: read_u64_at(bytes, base),
                modified: Timestamp {
                    secs: read_u64_at(bytes, base + 8),
                    nanos: read_u32_at(bytes, base + 16),
                },
                digest: Digest {
                    w0: read_u64_at(bytes, base + 20),
                    w1: read_u64_at(bytes, base + 28),
                    w2: read_u64_at(bytes, base + 36),
                    w3: read_u64_at(bytes, base + 44),
                },
            };
            proof {
                assert(dec_entry_at(bv, pos as int) == Some::<((Seq<u8>, FileState), int)>(
                    ((key@, st), base + 52 as int),
                )) by {
                    assert(dec_state_at(bv, pos as int + 8 + klen64 as int) == st);
                }
                let pre = entry_views(acc@);
                assert(entry_views(acc@.push((key, st))) =~= pre.push((key@, st)));
                match dec_entries_at(bv, base + 52 as int, (n - k - 1) as nat) {
                    None => {
                        assert(dec_entries_at(bv, pos as int, (n - k) as nat) is None);
                    },
                    Some((es2, p3)) => {
                        assert(dec_entries_at(bv, pos as int, (n - k) as nat)
                            == Some::<(Seq<(Seq<u8>, FileState)>, int)>(
                            (seq![(key@, st)] + es2, p3),
                        ));
                        assert(pre + (seq![(key@, st)] + es2) =~= pre.push((key@, st)) + es2);
                    },
                }
            }
            acc.push((key, st));
            pos = base + 52;
            k = k + 1;
        }
        proof {
            assert(dec_entries_at(bv, pos as int, 0) == Some::<(Seq<(Seq<u8>, FileState)>, int)>(
                (Seq::empty(), pos as int),
            ));
            assert(entry_views(acc@) + Seq::<(Seq<u8>, FileState)>::empty() =~= entry_views(acc@));
            assert(dec_entries_at(bv, 8, n as nat) == Some::<(Seq<(Seq<u8>, FileState)>, int)>(
                (entry_views(acc@), pos as int),
            ));
        }
        if pos != bytes.len() {
            return Err(DecodeError::Malformed);
        }
        if find_duplicate(&acc) {
            return Err(DecodeError::Duplicate);
        }
        Ok(TreeState { entries: acc })
    }

    /// Stop tracking `item`: remove its entry if present, otherwise do
    /// nothing.
    pub fn ignore(&mut self, item: &Vec<u8>)
        requires
            old(self).wf(),
        ensures
            final(self).wf(),
            final(self)@ == old(self)@.remove(item@),
    {
        match find_index(&self.entries, item) {
            Some(i) => {
                proof {
                    lemma_map_of_remove(entry_views(self.entries@), i as int);
                    assert(entry_views(self.entries@.remove(i as int)) =~= entry_views(
                        self.entries@,
                    ).remove(i as int));
                }
                let ghost old_views = entry_views(self.entries@);
                self.entries.remove(i);
                proof {
                    assert(entry_views(self.entries@) =~= old_views.remove(i as int));
                }
            },
            None => {
                proof {
                    lemma_map_of_contains(entry_views(self.entries@), item@);
                    assert(old(self)@.remove(item@) =~= old(self)@);
                }
            },
        }
    }
}

} // verus!
