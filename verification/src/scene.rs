//! The live entity graph and the operations the triggers drive: spawning,
//! moving the movable entities, clearing them, taking a save snapshot of the
//! entities that carry the marker capability, and loading a snapshot back in
//! additively.
//!
//! Coordinates are held in tenths of a world unit, so every position the
//! triggers can produce is an exact integer.

use vstd::prelude::*;

verus! {

/// Largest magnitude a coordinate may take, in tenths of a unit.
pub const MAX_COORD: i64 = 1_000_000_000_000;

/// Entity identifiers stay strictly below this bound.
pub const MAX_ID: u64 = 1_000_000_000_000;

/// One live entity: its identifier and its full component set. The components
/// are the two zero-data tags and the position.
#[derive(Clone, Copy, PartialEq, Eq, Structural, Debug)]
pub struct EntityRec {
    /// Identifier, unique within a graph.
    pub id: u64,
    /// Tag for the movable demo objects.
    pub stuff: bool,
    /// Marker capability: only entities carrying it appear in a save snapshot.
    pub save_me: bool,
    pub x: i64,
    pub y: i64,
    pub z: i64,
}

/// The component data of an entity, with the identifier stripped: what
/// "structurally equivalent modulo identifier reassignment" compares.
pub open spec fn components_of(e: EntityRec) -> (bool, bool, i64, i64, i64) {
    (e.stuff, e.save_me, e.x, e.y, e.z)
}

/// A single entity record is well formed: bounded identifier and coordinates.
pub open spec fn wf_entity(e: EntityRec) -> bool {
    &&& e.id < MAX_ID
    &&& -MAX_COORD <= e.x <= MAX_COORD
    &&& -MAX_COORD <= e.y <= MAX_COORD
    &&& -MAX_COORD <= e.z <= MAX_COORD
}

/// Every record of the sequence is well formed.
pub open spec fn wf_entries(s: Seq<EntityRec>) -> bool {
    forall|i: int| 0 <= i < s.len() ==> wf_entity(#[trigger] s[i])
}

/// Identifiers grow strictly along the sequence (so they are unique).
pub open spec fn ids_increasing(s: Seq<EntityRec>) -> bool {
    forall|i: int, j: int| 0 <= i < j < s.len() ==> #[trigger] s[i].id < #[trigger] s[j].id
}

/// Every record is well formed and its identifier lies below `next`.
pub open spec fn all_wf_below(s: Seq<EntityRec>, next: u64) -> bool {
    forall|i: int| 0 <= i < s.len() ==> wf_entity(#[trigger] s[i]) && s[i].id < next
}

/// The entities a save snapshot keeps: exactly those carrying the marker.
pub open spec fn snapshot_of(s: Seq<EntityRec>) -> Seq<EntityRec> {
    s.filter(|e: EntityRec| e.save_me)
}

/// The entities a clear trigger leaves behind: exactly the untagged ones.
pub open spec fn untagged_of(s: Seq<EntityRec>) -> Seq<EntityRec> {
    s.filter(|e: EntityRec| !e.stuff)
}

/// An entity after one move trigger: shifted by exactly the given delta on
/// each axis, tags and identifier untouched.
pub open spec fn moved_entity(e: EntityRec, dx: i64, dy: i64, dz: i64) -> EntityRec {
    EntityRec { x: (e.x + dx) as i64, y: (e.y + dy) as i64, z: (e.z + dz) as i64, ..e }
}

/// Every movable entity of `s` stays within coordinate bounds after the shift.
pub open spec fn can_move(s: Seq<EntityRec>, dx: int, dy: int, dz: int) -> bool {
    forall|i: int| 0 <= i < s.len() && (#[trigger] s[i]).stuff ==> {
        &&& -MAX_COORD <= s[i].x + dx <= MAX_COORD
        &&& -MAX_COORD <= s[i].y + dy <= MAX_COORD
        &&& -MAX_COORD <= s[i].z + dz <= MAX_COORD
    }
}

/// A snapshot entry as it re-enters a graph: the saved component data under a
/// freshly assigned identifier.
pub open spec fn loaded_entry(e: EntityRec, id: u64) -> EntityRec {
    EntityRec { id, ..e }
}

/// The entity sequence after loading `entries` additively into a graph whose
/// entities were `base` and whose next fresh identifier was `next`.
pub open spec fn load_result(base: Seq<EntityRec>, next: u64, entries: Seq<EntityRec>) -> Seq<
    EntityRec,
> {
    base + entries.map(|k: int, e: EntityRec| loaded_entry(e, (next + k) as u64))
}

/// The entity a spawn trigger creates: movable, marked for saving, resting at
/// half a unit above the origin.
pub open spec fn cube_entity(id: u64) -> EntityRec {
    EntityRec { id, stuff: true, save_me: true, x: 0, y: 5, z: 0 }
}

/// The entity camera setup creates: untagged, at its fixed vantage point.
pub open spec fn camera_entity(id: u64) -> EntityRec {
    EntityRec { id, stuff: false, save_me: false, x: -20i64, y: 25, z: 50 }
}

/// A save snapshot: the ordered component data of the marked entities,
/// captured at save time.
pub struct Snapshot {
    pub entries: Vec<EntityRec>,
}

impl Snapshot {
    pub open spec fn wf(self) -> bool {
        wf_entries(self.entries@)
    }
}

/// The live entity graph: the ordered live entities and the next fresh
/// identifier.
pub struct Graph {
    pub entities: Vec<EntityRec>,
    pub next_id: u64,
}

/// Filtering keeps well-formedness, the identifier bound, and the strict
/// identifier order, and every kept record is a record of the unfiltered
/// sequence.
pub(crate) proof fn lemma_filter_keeps_wf(
    s: Seq<EntityRec>,
    pred: spec_fn(EntityRec) -> bool,
    next: u64,
)
    requires
        all_wf_below(s, next),
        ids_increasing(s),
    ensures
        all_wf_below(s.filter(pred), next),
        ids_increasing(s.filter(pred)),
        forall|i: int| 0 <= i < s.filter(pred).len() ==> s.contains(#[trigger] s.filter(pred)[i]),
    decreases s.len(),
{
    reveal(Seq::filter);
    if s.len() > 0 {
        let dl = s.drop_last();
        assert(all_wf_below(dl, next) && ids_increasing(dl)) by {
            assert(forall|i: int| 0 <= i < dl.len() ==> dl[i] == s[i]);
        }
        lemma_filter_keeps_wf(dl, pred, next);
        let fd = dl.filter(pred);
        let f = s.filter(pred);
        assert(forall|i: int| 0 <= i < dl.len() ==> dl[i] == s[i]);
        assert forall|i: int| 0 <= i < fd.len() implies s.contains(fd[i]) by {
            let m = choose|m: int| 0 <= m < dl.len() && dl[m] == fd[i];
            assert(s[m] == fd[i]);
        }
        if pred(s.last()) {
            assert(f == fd.push(s.last()));
            assert(s.contains(s.last())) by {
                assert(s[s.len() - 1] == s.last());
            }
            assert forall|i: int, j: int| 0 <= i < j < f.len() implies f[i].id < f[j].id by {
                if j < fd.len() {
                    assert(f[i] == fd[i] && f[j] == fd[j]);
                } else {
                    assert(f[j] == s.last());
                    assert(f[i] == fd[i]);
                    let m = choose|m: int| 0 <= m < dl.len() && dl[m] == fd[i];
                    assert(s[m] == fd[i]);
                    assert(s[m].id < s[s.len() - 1].id);
                }
            }
        } else {
            assert(f == fd);
        }
    }
}

impl Graph {
    /// A graph is well formed: bounded fresh identifier, every entity well
    /// formed with an identifier below it, identifiers strictly increasing.
    pub open spec fn wf(self) -> bool {
        &&& self.next_id <= MAX_ID
        &&& all_wf_below(self.entities@, self.next_id)
        &&& ids_increasing(self.entities@)
    }

    /// The empty live graph, as the application starts.
    pub fn new() -> (g: Graph)
        ensures
            g.wf(),
            g.entities@ =~= Seq::<EntityRec>::empty(),
            g.next_id == 0,
    {
        Graph { entities: Vec::new(), next_id: 0 }
    }

    pub fn len(&self) -> (n: usize)
        ensures
            n == self.entities@.len(),
    {
        self.entities.len()
    }

    pub fn get(&self, i: usize) -> (e: EntityRec)
        requires
            i < self.entities@.len(),
        ensures
            e == self.entities@[i as int],
    {
        self.entities[i]
    }

    /// Spawns one movable, save-marked object at the fixed spawn point.
    pub fn spawn_cube(&mut self)
        requires
            old(self).wf(),
            old(self).next_id < MAX_ID,
        ensures
            final(self).wf(),
            final(self).entities@ == old(self).entities@.push(cube_entity(old(self).next_id)),
            final(self).next_id == old(self).next_id + 1,
    {
        let e = EntityRec { id: self.next_id, stuff: true, save_me: true, x: 0, y: 5, z: 0 };
        self.entities.push(e);
        self.next_id = self.next_id + 1;
    }

    /// Spawns the camera: an untagged entity at its fixed vantage point.
    pub fn spawn_camera(&mut self)
        requires
            old(self).wf(),
            old(self).next_id < MAX_ID,
        ensures
            final(self).wf(),
            final(self).entities@ == old(self).entities@.push(camera_entity(old(self).next_id)),
            final(self).next_id == old(self).next_id + 1,
    {
        let e = EntityRec { id: self.next_id, stuff: false, save_me: false, x: -20, y: 25, z: 50 };
        self.entities.push(e);
        self.next_id = self.next_id + 1;
    }

    /// True exactly when every movable entity stays within bounds after a
    /// shift by the given delta.
    pub fn move_allowed(&self, dx: i64, dy: i64, dz: i64) -> (r: bool)
        requires
            self.wf(),
            -MAX_COORD <= dx <= MAX_COORD,
            -MAX_COORD <= dy <= MAX_COORD,
            -MAX_COORD <= dz <= MAX_COORD,
        ensures
            r == can_move(self.entities@, dx as int, dy as int, dz as int),
    {
        let n = self.entities.len();
        let mut i: usize = 0;
        while i < n
            invariant
                i <= n,
                n == self.entities@.len(),
                self.wf(),
                -MAX_COORD <= dx <= MAX_COORD,
                -MAX_COORD <= dy <= MAX_COORD,
                -MAX_COORD <= dz <= MAX_COORD,
                forall|k: int| 0 <= k < i && (#[trigger] self.entities@[k]).stuff ==> {
                    &&& -MAX_COORD <= self.entities@[k].x + dx <= MAX_COORD
                    &&& -MAX_COORD <= self.entities@[k].y + dy <= MAX_COORD
                    &&& -MAX_COORD <= self.entities@[k].z + dz <= MAX_COORD
                },
            decreases n - i,
        {
            let e = self.entities[i];
            if e.stuff {
                let nx = e.x + dx;
                let ny = e.y + dy;
                let nz = e.z + dz;
                if nx < -MAX_COORD || nx > MAX_COORD || ny < -MAX_COORD || ny > MAX_COORD || nz
                    < -MAX_COORD || nz > MAX_COORD {
                    return false;
                }
            }
            i = i + 1;
        }
        true
    }

    /// One move trigger: shifts every movable entity by exactly the given
    /// delta on each axis and leaves every other entity, and every tag and
    /// identifier, untouched.
    pub fn move_tagged(&mut self, dx: i64, dy: i64, dz: i64)
        requires
            old(self).wf(),
            can_move(old(self).entities@, dx as int, dy as int, dz as int),
        ensures
            final(self).wf(),
            final(self).next_id == old(self).next_id,
            final(self).entities@.len() == old(self).entities@.len(),
            forall|k: int|
                0 <= k < old(self).entities@.len() ==> final(self).entities@[k] == (if old(
                    self,
                ).entities@[k].stuff {
                    moved_entity(#[trigger] old(self).entities@[k], dx, dy, dz)
                } else {
                    old(self).entities@[k]
                }),
    {
        let ghost orig = self.entities@;
        let n = self.entities.len();
        let mut out: Vec<EntityRec> = Vec::new();
        let mut i: usize = 0;
        while i < n
            invariant
                i <= n,
                n == orig.len(),
                self.entities@ == orig,
                self.wf(),
                can_move(orig, dx as int, dy as int, dz as int),
                out@.len() == i,
                forall|k: int|
                    0 <= k < i ==> out@[k] == (if orig[k].stuff {
                        moved_entity(#[trigger] orig[k], dx, dy, dz)
                    } else {
                        orig[k]
                    }),
            decreases n - i,
        {
            let e = self.entities[i];
            if e.stuff {
                let m = EntityRec { x: e.x + dx, y: e.y + dy, z: e.z + dz, ..e };
                out.push(m);
            } else {
                out.push(e);
            }
            i = i + 1;
        }
        proof {
            assert forall|k: int| 0 <= k < out@.len() implies wf_entity(#[trigger] out@[k])
                && out@[k].id < self.next_id by {
                assert(out@[k].id == orig[k].id);
            }
            assert forall|a: int, b: int| 0 <= a < b < out@.len() implies #[trigger] out@[a].id
                < #[trigger] out@[b].id by {
                assert(out@[a].id == orig[a].id && out@[b].id == orig[b].id);
            }
        }
        self.entities = out;
    }

    /// One despawn trigger: removes every entity carrying the movable tag and
    /// keeps every untagged entity, in order.
    pub fn clear_tagged(&mut self)
        requires
            old(self).wf(),
        ensures
            final(self).wf(),
            final(self).next_id == old(self).next_id,
            final(self).entities@ == untagged_of(old(self).entities@),
    {
        let ghost orig = self.entities@;
        let n = self.entities.len();
        let mut out: Vec<EntityRec> = Vec::new();
        let mut i: usize = 0;
        while i < n
            invariant
                i <= n,
                n == orig.len(),
                self.entities@ == orig,
                out@ == untagged_of(orig.take(i as int)),
            decreases n - i,
        {
            let e = self.entities[i];
            proof {
                lemma_filter_step(orig, i as int, |r: EntityRec| !r.stuff);
            }
            if !e.stuff {
                out.push(e);
            }
            i = i + 1;
        }
        proof {
            assert(orig.take(n as int) =~= orig);
            lemma_filter_keeps_wf(orig, |r: EntityRec| !r.stuff, self.next_id);
        }
        self.entities = out;
    }

    /// Builds the save snapshot: exactly the entities that carry the marker
    /// capability at this moment, in graph order, with their full component
    /// data.
    pub fn snapshot(&self) -> (snap: Snapshot)
        requires
            self.wf(),
        ensures
            snap.wf(),
            snap.entries@ == snapshot_of(self.entities@),
    {
        let ghost orig = self.entities@;
        let n = self.entities.len();
        let mut out: Vec<EntityRec> = Vec::new();
        let mut i: usize = 0;
        while i < n
            invariant
                i <= n,
                n == orig.len(),
                self.entities@ == orig,
                out@ == snapshot_of(orig.take(i as int)),
            decreases n - i,
        {
            let e = self.entities[i];
            proof {
                lemma_filter_step(orig, i as int, |r: EntityRec| r.save_me);
            }
            if e.save_me {
                out.push(e);
            }
            i = i + 1;
        }
        proof {
            assert(orig.take(n as int) =~= orig);
            lemma_filter_keeps_wf(orig, |r: EntityRec| r.save_me, self.next_id);
        }
        Snapshot { entries: out }
    }

    /// True exactly when the graph still has room to load that many entries.
    pub fn can_load(&self, snap: &Snapshot) -> (r: bool)
        requires
            self.wf(),
        ensures
            r == (self.next_id + snap.entries@.len() <= MAX_ID),
    {
        snap.entries.len() as u64 <= MAX_ID - self.next_id
    }

    /// Loads a snapshot additively: every entity already present stays exactly
    /// as it was, and each snapshot entry re-enters the graph in order with
    /// its saved component data under a fresh identifier.
    pub fn load_snapshot(&mut self, snap: &Snapshot)
        requires
            old(self).wf(),
            snap.wf(),
            old(self).next_id + snap.entries@.len() <= MAX_ID,
        ensures
            final(self).wf(),
            final(self).entities@ == load_result(
                old(self).entities@,
                old(self).next_id,
                snap.entries@,
            ),
            final(self).entities@.len() == old(self).entities@.len() + snap.entries@.len(),
            final(self).entities@.take(old(self).entities@.len() as int) == old(self).entities@,
            final(self).next_id == old(self).next_id + snap.entries@.len(),
    {
        let ghost base = self.entities@;
        let ghost next0 = self.next_id;
        let m = snap.entries.len();
        let mut k: usize = 0;
        while k < m
            invariant
                k <= m,
                m == snap.entries@.len(),
                snap.wf(),
                next0 + m <= MAX_ID,
                self.next_id == next0 + k,
                self.entities@ == load_result(base, next0, snap.entries@.take(k as int)),
                self.entities@.len() == base.len() + k,
                all_wf_below(base, next0),
                ids_increasing(base),
                all_wf_below(self.entities@, self.next_id),
                ids_increasing(self.entities@),
            decreases m - k,
        {
            let e = snap.entries[k];
            let fresh = EntityRec { id: self.next_id, ..e };
            let ghost before = self.entities@;
            self.entities.push(fresh);
            self.next_id = self.next_id + 1;
            proof {
                let tk1 = snap.entries@.take(k as int + 1);
                let tk = snap.entries@.take(k as int);
                let f = |j: int, r: EntityRec| loaded_entry(r, (next0 + j) as u64);
                assert(tk1.map(f) =~= tk.map(f).push(loaded_entry(e, (next0 + k) as u64))) by {
                    assert(forall|j: int| 0 <= j < tk1.len() ==> tk1[j] == snap.entries@[j]);
                    assert(forall|j: int| 0 <= j < tk.len() ==> tk[j] == snap.entries@[j]);
                }
                assert(self.entities@ =~= load_result(base, next0, tk1));
            }
            k = k + 1;
        }
        proof {
            assert(snap.entries@.take(m as int) =~= snap.entries@);
            assert(self.entities@.take(base.len() as int) =~= base);
        }
    }
}

/// One step of building a filtered sequence left to right: taking one more
/// element extends the filtered prefix by that element exactly when it
/// satisfies the predicate.
proof fn lemma_filter_step(s: Seq<EntityRec>, i: int, pred: spec_fn(EntityRec) -> bool)
    requires
        0 <= i < s.len(),
    ensures
        s.take(i + 1).filter(pred) == if pred(s[i]) {
            s.take(i).filter(pred).push(s[i])
        } else {
            s.take(i).filter(pred)
        },
{
    reveal(Seq::filter);
    let t1 = s.take(i + 1);
    assert(t1.drop_last() =~= s.take(i));
    assert(t1.last() == s[i]);
}

} // verus!
