//! The library's laws: properties that relate several operations, stated over
//! the same spec functions the operations' contracts use, and proved once for
//! all inputs.

use vstd::map::*;
use vstd::prelude::*;

use crate::codec::count_limit;
use crate::codec::lemma_decode_encode;
use crate::codec::spec_decode_raw;
use crate::codec::spec_encode;
use crate::state::Digest;
use crate::state::FileMeta;
use crate::state::FileState;
use crate::state::Observation;
use crate::state::file_capture;
use crate::state::file_changed;
use crate::tree::any_changed;
use crate::tree::build_map;
use crate::tree::key_at;
use crate::tree::keys_unique;
use crate::tree::lemma_map_of_contains;
use crate::tree::lemma_map_of_index;
use crate::tree::map_of;
use crate::tree::obs_lookup;

verus! {

/// Law: an item that can no longer be observed counts as changed.
pub proof fn lemma_missing_is_changed(s: FileState)
    ensures
        file_changed(s, Observation::Missing),
{
}

/// Law: an observation from which no state can be captured never compares
/// equal to a recorded state — unknown is never equal to known.
pub proof fn lemma_unobservable_is_changed(s: FileState, o: Observation)
    requires
        file_capture(o) is None,
    ensures
        file_changed(s, o),
{
}

/// Law: when a tracked identity is no longer observable, the collection as a
/// whole reports a change.
pub proof fn lemma_tracked_missing_any_changed(
    m: Map<Seq<u8>, FileState>,
    live: Seq<(Seq<u8>, Observation)>,
    k: Seq<u8>,
)
    requires
        m.contains_key(k),
        obs_lookup(live, k) is Missing,
    ensures
        any_changed(m, live),
{
}

/// Law: matching length and timestamp settle the check as unchanged, whatever
/// the observed digest; the content is never consulted.
pub proof fn lemma_meta_match_unchanged(s: FileState, meta: FileMeta, digest: Digest)
    requires
        meta.len == s.len,
        meta.modified == s.modified,
    ensures
        !file_changed(s, Observation::Found { meta, digest }),
{
}

/// Law: when length or timestamp differ, the digest alone decides; in
/// particular a timestamp-only touch with unchanged content is unchanged.
pub proof fn lemma_meta_differs_digest_decides(s: FileState, meta: FileMeta, digest: Digest)
    requires
        !(meta.len == s.len && meta.modified == s.modified),
    ensures
        file_changed(s, Observation::Found { meta, digest }) == (digest != s.digest),
{
}

/// Every tracked identity is observed present, with exactly its recorded
/// length and modified-timestamp.
pub open spec fn live_matches_meta(
    m: Map<Seq<u8>, FileState>,
    live: Seq<(Seq<u8>, Observation)>,
) -> bool {
    forall|k: Seq<u8>| #[trigger]
        m.contains_key(k) ==> match obs_lookup(live, k) {
            Observation::Missing => false,
            Observation::Found { meta, digest: _ } => meta.len == m[k].len && meta.modified
                == m[k].modified,
        }
}

/// Law: over an unmodified tree the whole cycle is a no-op — the persisted
/// bytes restore to exactly the built entries, and the restored collection
/// reports no change.
pub proof fn lemma_unmodified_cycle(
    es: Seq<(Seq<u8>, FileState)>,
    live: Seq<(Seq<u8>, Observation)>,
)
    requires
        es.len() < count_limit(),
        forall|i: int| 0 <= i < es.len() ==> #[trigger] es[i].0.len() < count_limit(),
        live_matches_meta(map_of(es), live),
    ensures
        spec_decode_raw(spec_encode(es)) == Some(es),
        !any_changed(map_of(es), live),
{
    lemma_decode_encode(es);
    if any_changed(map_of(es), live) {
        let k = choose|k: Seq<u8>|
            map_of(es).contains_key(k) && file_changed(map_of(es)[k], obs_lookup(live, k));
        assert(map_of(es).contains_key(k));
    }
}

/// Law: once an identity is excluded from tracking, the verdict does not
/// depend on what is observed at that identity; in particular writes to the
/// excluded state file itself cannot flip it.
pub proof fn lemma_ignored_key_irrelevant(
    m: Map<Seq<u8>, FileState>,
    k: Seq<u8>,
    live1: Seq<(Seq<u8>, Observation)>,
    live2: Seq<(Seq<u8>, Observation)>,
)
    requires
        forall|k2: Seq<u8>| k2 != k ==> #[trigger] obs_lookup(live1, k2) == obs_lookup(live2, k2),
    ensures
        any_changed(m.remove(k), live1) == any_changed(m.remove(k), live2),
{
    let mr = m.remove(k);
    if any_changed(mr, live1) {
        let k2 = choose|k2: Seq<u8>| mr.contains_key(k2) && file_changed(
            mr[k2],
            obs_lookup(live1, k2),
        );
        assert(k2 != k);
        assert(mr.contains_key(k2) && file_changed(mr[k2], obs_lookup(live2, k2)));
    }
    if any_changed(mr, live2) {
        let k2 = choose|k2: Seq<u8>| mr.contains_key(k2) && file_changed(
            mr[k2],
            obs_lookup(live2, k2),
        );
        assert(k2 != k);
        assert(mr.contains_key(k2) && file_changed(mr[k2], obs_lookup(live1, k2)));
    }
}

/// Law: aggregating already-captured pairs in any arrival order — as when a
/// channel delivers them from concurrent producers — yields the same
/// collection.
pub proof fn lemma_pairs_order_independent(
    a: Seq<(Seq<u8>, FileState)>,
    b: Seq<(Seq<u8>, FileState)>,
)
    requires
        keys_unique(a),
        keys_unique(b),
        a.to_multiset() == b.to_multiset(),
    ensures
        map_of(a) == map_of(b),
{
    a.to_multiset_ensures();
    b.to_multiset_ensures();
    assert_maps_equal!(map_of(a), map_of(b), k => {
        lemma_map_of_contains(a, k);
        lemma_map_of_contains(b, k);
        if map_of(a).contains_key(k) {
            let i = choose|i: int| key_at(a, i, k);
            assert(a.contains(a[i]));
            assert(b.to_multiset().count(a[i]) > 0);
            assert(b.contains(a[i]));
            let j = choose|j: int| 0 <= j < b.len() && b[j] == a[i];
            assert(key_at(b, j, k));
            lemma_map_of_index(a, i);
            lemma_map_of_index(b, j);
        }
        if map_of(b).contains_key(k) {
            let j = choose|j: int| key_at(b, j, k);
            assert(b.contains(b[j]));
            assert(a.to_multiset().count(b[j]) > 0);
            assert(a.contains(b[j]));
            let i = choose|i: int| 0 <= i < a.len() && a[i] == b[j];
            assert(key_at(a, i, k));
            lemma_map_of_index(b, j);
            lemma_map_of_index(a, i);
        }
    });
}

/// Entry `i` exists, carries key `k`, and its observation captures a state.
pub open spec fn obs_entry_yields(
    items: Seq<(Seq<u8>, Observation)>,
    i: int,
    k: Seq<u8>,
) -> bool {
    0 <= i < items.len() && items[i].0 == k && file_capture(items[i].1) is Some
}

/// No two observations carry the same key.
pub open spec fn obs_keys_unique(items: Seq<(Seq<u8>, Observation)>) -> bool {
    forall|i: int, j: int| 0 <= i < j < items.len() ==> items[i].0 != items[j].0
}

/// A key is in a built map exactly when some observation carries it and
/// captures a state.
proof fn lemma_build_map_contains(items: Seq<(Seq<u8>, Observation)>, k: Seq<u8>)
    ensures
        build_map(items).contains_key(k) <==> exists|i: int| obs_entry_yields(items, i, k),
    decreases items.len(),
{
    if items.len() > 0 {
        lemma_build_map_contains(items.drop_last(), k);
        let last = items.len() - 1;
        if items[last].0 == k && file_capture(items[last].1) is Some {
            assert(obs_entry_yields(items, last, k));
        } else {
            if build_map(items).contains_key(k) {
                let i = choose|i: int| obs_entry_yields(items.drop_last(), i, k);
                assert(obs_entry_yields(items, i, k));
            }
            if exists|i: int| obs_entry_yields(items, i, k) {
                let i = choose|i: int| obs_entry_yields(items, i, k);
                assert(i < last);
                assert(obs_entry_yields(items.drop_last(), i, k));
            }
        }
    } else {
        assert(forall|i: int| !obs_entry_yields(items, i, k));
    }
}

/// Under unique keys, each capturing observation fixes its key's state in the
/// built map.
proof fn lemma_build_map_index(items: Seq<(Seq<u8>, Observation)>, i: int)
    requires
        obs_keys_unique(items),
        0 <= i < items.len(),
        file_capture(items[i].1) is Some,
    ensures
        build_map(items).contains_key(items[i].0),
        file_capture(items[i].1) == Some(build_map(items)[items[i].0]),
    decreases items.len(),
{
    let last = items.len() - 1;
    if i < last {
        lemma_build_map_index(items.drop_last(), i);
        assert(items[i].0 != items[last].0);
    }
}

/// Law: building over the same observed identities, presented in any order —
/// as when capture is distributed across parallel workers — yields the same
/// collection.
pub proof fn lemma_build_order_independent(
    a: Seq<(Seq<u8>, Observation)>,
    b: Seq<(Seq<u8>, Observation)>,
)
    requires
        obs_keys_unique(a),
        obs_keys_unique(b),
        a.to_multiset() == b.to_multiset(),
    ensures
        build_map(a) == build_map(b),
{
    a.to_multiset_ensures();
    b.to_multiset_ensures();
    assert_maps_equal!(build_map(a), build_map(b), k => {
        lemma_build_map_contains(a, k);
        lemma_build_map_contains(b, k);
        if build_map(a).contains_key(k) {
            let i = choose|i: int| obs_entry_yields(a, i, k);
            assert(a.contains(a[i]));
            assert(b.to_multiset().count(a[i]) > 0);
            assert(b.contains(a[i]));
            let j = choose|j: int| 0 <= j < b.len() && b[j] == a[i];
            assert(obs_entry_yields(b, j, k));
            lemma_build_map_index(a, i);
            lemma_build_map_index(b, j);
        }
        if build_map(b).contains_key(k) {
            let j = choose|j: int| obs_entry_yields(b, j, k);
            assert(b.contains(b[j]));
            assert(a.to_multiset().count(b[j]) > 0);
            assert(a.contains(b[j]));
            let i = choose|i: int| 0 <= i < a.len() && a[i] == b[j];
            assert(obs_entry_yields(a, i, k));
            lemma_build_map_index(b, j);
            lemma_build_map_index(a, i);
        }
    });
}

} // verus!
