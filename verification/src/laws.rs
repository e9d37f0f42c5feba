//! The laws of selective scene persistence, stated over the same spec
//! functions the operations' contracts use, and proved once for all inputs.

use vstd::prelude::*;
use crate::codec::spec_serialize;
use crate::scene::{components_of, load_result, snapshot_of, untagged_of, EntityRec, Graph};

verus! {

/// An entity record of a well-formed graph stands in the graph's filtered
/// form exactly when it is a record of the graph and satisfies the predicate.
proof fn lemma_filter_membership(g: Graph, pred: spec_fn(EntityRec) -> bool, e: EntityRec)
    requires
        g.wf(),
    ensures
        g.entities@.filter(pred).contains(e) <==> (g.entities@.contains(e) && pred(e)),
{
    let s = g.entities@;
    let f = s.filter(pred);
    crate::scene::lemma_filter_keeps_wf(s, pred, g.next_id);
    if f.contains(e) {
        let j = choose|j: int| 0 <= j < f.len() && f[j] == e;
        s.lemma_filter_pred(pred, j);
        assert(s.contains(f[j]));
    }
    if s.contains(e) && pred(e) {
        let i = choose|i: int| 0 <= i < s.len() && s[i] == e;
        s.lemma_filter_contains(pred, i);
    }
}

/// An entity appears in a save snapshot if and only if it carries the marker
/// capability at the moment the save is triggered.
pub proof fn lemma_snapshot_membership(g: Graph, e: EntityRec)
    requires
        g.wf(),
    ensures
        snapshot_of(g.entities@).contains(e) <==> (g.entities@.contains(e) && e.save_me),
{
    lemma_filter_membership(g, |r: EntityRec| r.save_me, e);
}

/// A despawn trigger removes every entity carrying the movable tag and keeps
/// every untagged entity untouched: an entity survives a clear if and only if
/// it was live and untagged.
pub proof fn lemma_clear_membership(g: Graph, e: EntityRec)
    requires
        g.wf(),
    ensures
        untagged_of(g.entities@).contains(e) <==> (g.entities@.contains(e) && !e.stuff),
{
    lemma_filter_membership(g, |r: EntityRec| !r.stuff, e);
}

/// Saving is deterministic: two graphs whose live entities agree serialize
/// their snapshots to byte-identical output, so two saves with no intervening
/// state change produce the same bytes.
pub proof fn lemma_save_deterministic(g1: Graph, g2: Graph)
    requires
        g1.entities@ == g2.entities@,
    ensures
        spec_serialize(snapshot_of(g1.entities@)) == spec_serialize(snapshot_of(g2.entities@)),
{
}

/// Loading is additive: a graph of N entities that loads a snapshot of M
/// entries ends with N + M entities, and no existing entity is removed or
/// overwritten.
pub proof fn lemma_load_additive(base: Seq<EntityRec>, next: u64, entries: Seq<EntityRec>)
    ensures
        load_result(base, next, entries).len() == base.len() + entries.len(),
        load_result(base, next, entries).take(base.len() as int) == base,
        forall|k: int| 0 <= k < base.len() ==> #[trigger] load_result(base, next, entries)[k]
            == base[k],
{
    assert(load_result(base, next, entries).take(base.len() as int) =~= base);
}

/// Round trip: loading a graph's snapshot into a fresh, empty graph yields
/// entities structurally equivalent to the marked set, component for
/// component, modulo identifier reassignment. The byte leg of the trip is
/// pinned by `serialize_snapshot` and `parse_snapshot`: the serialized form
/// parses back to exactly the snapshot it came from.
pub proof fn lemma_round_trip(g: Graph)
    requires
        g.wf(),
    ensures
        ({
            let snap = snapshot_of(g.entities@);
            let loaded = load_result(Seq::<EntityRec>::empty(), 0, snap);
            &&& loaded.len() == snap.len()
            &&& forall|k: int|
                0 <= k < snap.len() ==> components_of(#[trigger] loaded[k]) == components_of(
                    snap[k],
                )
        }),
{
    let snap = snapshot_of(g.entities@);
    let f = |k: int, e: EntityRec| crate::scene::loaded_entry(e, (0 + k) as u64);
    let loaded = load_result(Seq::<EntityRec>::empty(), 0, snap);
    assert(loaded =~= snap.map(f));
}

} // verus!
