use vstd::prelude::*;

use std::collections::HashMap;

use crate::components::{
    EntityDies, EntityFinishedTurn, EntityId, EntityMeleeAttacks, EntityMovedEvent,
    EntitySuffersDamage, MapChangedEvent, VisibilityChangedEvent, WorldPos,
};
use crate::map::{lemma_pos_key_injective, pos_key, pos_key_exec};

verus! {

broadcast use vstd::std_specs::hash::group_hash_axioms;

/// Tracks the current turn number of the game; used to age logs.
#[derive(Copy, Clone, Eq, PartialEq, Structural, Hash, Debug)]
pub struct CurrentTurnNumber(pub usize);

/// Indicates the player system has already run once this frame.
#[derive(Copy, Clone, Eq, PartialEq, Structural, Hash, Debug)]
pub struct PlayerMovedInFrame(pub bool);

/// Indicates the player produced a "no action" choice (or was early
/// stopped), which ends the cycle loop for this frame.
#[derive(Copy, Clone, Eq, PartialEq, Structural, Hash, Debug)]
pub struct PlayerNoAction(pub bool);

/// The player's intent for this cycle, as decoded by the input layer.
#[derive(Copy, Clone, Eq, PartialEq, Structural, Hash, Debug)]
pub struct PlayerInputState {
    pub up_pressed: bool,
    pub down_pressed: bool,
    pub right_pressed: bool,
    pub left_pressed: bool,
    pub pass_pressed: bool,
}

impl Default for PlayerInputState {
    fn default() -> (r: Self)
        ensures
            r == (PlayerInputState {
                up_pressed: false,
                down_pressed: false,
                right_pressed: false,
                left_pressed: false,
                pass_pressed: false,
            }),
    {
        PlayerInputState {
            up_pressed: false,
            down_pressed: false,
            right_pressed: false,
            left_pressed: false,
            pass_pressed: false,
        }
    }
}

/// One log line.
#[derive(Clone, Eq, PartialEq, Debug)]
pub struct Log {
    pub message: String,
}

/// A log line together with the turn on which it was issued.
#[derive(Clone, Eq, PartialEq, Debug)]
pub struct LogInfo {
    pub log: Log,
    pub issue_round: usize,
}

/// The game's message log; index 0 is the newest entry.
pub struct Logs {
    pub logs: Vec<LogInfo>,
}

impl Logs {
    pub fn new() -> (r: Self)
        ensures
            r.logs@.len() == 0,
    {
        Logs { logs: Vec::new() }
    }

    /// Prepend a log entry, so the newest is always first.
    pub fn push(&mut self, log: LogInfo)
        ensures
            final(self).logs@ == seq![log] + old(self).logs@,
    {
        self.logs.insert(0, log);
        proof {
            assert(self.logs@ =~= seq![log] + old(self).logs@);
        }
    }

    /// The i-th newest entry, if there is one.
    pub fn get(&self, i: usize) -> (r: Option<&LogInfo>)
        ensures
            r == if i < self.logs@.len() {
                Some(&self.logs@[i as int])
            } else {
                None::<&LogInfo>
            },
    {
        if i < self.logs.len() {
            Some(&self.logs[i])
        } else {
            None
        }
    }

    pub fn len(&self) -> (r: usize)
        ensures
            r == self.logs@.len(),
    {
        self.logs.len()
    }
}

/// One full circular rotation step: the front actor moves to the back.
/// Queues of one or zero actors are left alone.
pub open spec fn rotate1(s: Seq<EntityId>) -> Seq<EntityId> {
    if s.len() <= 1 {
        s
    } else {
        s.subrange(1, s.len() as int).push(s[0])
    }
}

/// `n` rotation steps in a row.
pub open spec fn rotate_n(s: Seq<EntityId>, n: nat) -> Seq<EntityId>
    decreases n,
{
    if n == 0 {
        s
    } else {
        rotate1(rotate_n(s, (n - 1) as nat))
    }
}

/// The ordered, circular queue of actors awaiting their turn.
pub struct TurnOrder {
    pub turn_order: Vec<EntityId>,
}

impl TurnOrder {
    /// The queue never holds the same actor twice.
    pub open spec fn wf(self) -> bool {
        forall|i: int, j: int|
            0 <= i < j < self.turn_order@.len() ==> #[trigger] self.turn_order@[i]
                != #[trigger] self.turn_order@[j]
    }

    pub fn new() -> (r: Self)
        ensures
            r.wf(),
            r.turn_order@.len() == 0,
    {
        TurnOrder { turn_order: Vec::new() }
    }

    /// The actor whose turn it currently is: the front of the queue.
    pub fn current_holder(&self) -> (r: Option<EntityId>)
        ensures
            r == if self.turn_order@.len() > 0 {
                Some(self.turn_order@[0])
            } else {
                None::<EntityId>
            },
    {
        if self.turn_order.len() > 0 {
            Some(self.turn_order[0])
        } else {
            None
        }
    }

    /// Rotate the queue by one position; with one or no actors this is a
    /// no-op.
    pub fn end_turn(&mut self)
        requires
            old(self).wf(),
        ensures
            final(self).wf(),
            final(self).turn_order@ == rotate1(old(self).turn_order@),
    {
        if self.turn_order.len() <= 1 {
            return;
        }
        let head = self.turn_order.remove(0);
        self.turn_order.push(head);
        proof {
            assert(self.turn_order@ =~= rotate1(old(self).turn_order@));
        }
    }

    /// Append a new participant unless it is already queued (idempotent).
    pub fn add_if_not_present(&mut self, entity: EntityId)
        requires
            old(self).wf(),
        ensures
            final(self).wf(),
            final(self).turn_order@ == if old(self).turn_order@.contains(entity) {
                old(self).turn_order@
            } else {
                old(self).turn_order@.push(entity)
            },
    {
        let n = self.turn_order.len();
        let mut i: usize = 0;
        let mut exists_already = false;
        while i < n
            invariant
                n == self.turn_order@.len(),
                i <= n,
                exists_already == exists|j: int| 0 <= j < i && self.turn_order@[j] == entity,
            decreases n - i,
        {
            if self.turn_order[i] == entity {
                exists_already = true;
            }
            i += 1;
        }
        if !exists_already {
            self.turn_order.push(entity);
        }
    }

    /// Remove an actor from wherever it sits in the queue (for example on
    /// death); absent actors are left alone.
    pub fn remove_from_turn_order(&mut self, entity: EntityId)
        requires
            old(self).wf(),
        ensures
            final(self).wf(),
            !old(self).turn_order@.contains(entity) ==> final(self).turn_order@ == old(
                self,
            ).turn_order@,
            forall|i: int|
                0 <= i < old(self).turn_order@.len() && old(self).turn_order@[i] == entity
                    ==> final(self).turn_order@ == old(self).turn_order@.remove(i),
            !final(self).turn_order@.contains(entity),
    {
        let n = self.turn_order.len();
        let mut i: usize = 0;
        while i < n && self.turn_order[i] != entity
            invariant
                n == self.turn_order@.len(),
                i <= n,
                forall|j: int| 0 <= j < i ==> self.turn_order@[j] != entity,
            decreases n - i,
        {
            i += 1;
        }
        if i < self.turn_order.len() {
            self.turn_order.remove(i);
            proof {
                assert forall|j: int|
                    0 <= j < old(self).turn_order@.len() && old(self).turn_order@[j] == entity
                        implies final(self).turn_order@ == old(self).turn_order@.remove(j) by {
                    assert(j == i);
                }
                assert forall|j: int|
                    0 <= j < self.turn_order@.len() implies #[trigger] self.turn_order@[j]
                    != entity by {
                    if j < i {
                    } else {
                        assert(self.turn_order@[j] == old(self).turn_order@[j + 1]);
                    }
                }
            }
        }
    }

    pub fn len(&self) -> (r: usize)
        ensures
            r == self.turn_order@.len(),
    {
        self.turn_order.len()
    }
}

/// After as many end-of-turn rotations as there are queued actors, the queue
/// returns to exactly its original order, so the first-added actor holds the
/// turn again.
pub proof fn lemma_full_rotation(s: Seq<EntityId>)
    ensures
        rotate_n(s, s.len()) == s,
{
    lemma_rotate_prefix(s, s.len());
    assert(rotate_n(s, s.len()) =~= s);
}

/// After `k` rotations the queue is the original with its first `k` actors
/// moved, in order, to the back.
pub proof fn lemma_rotate_prefix(s: Seq<EntityId>, k: nat)
    requires
        k <= s.len(),
    ensures
        rotate_n(s, k) == s.subrange(k as int, s.len() as int) + s.subrange(0, k as int),
    decreases k,
{
    if k == 0 {
        assert(rotate_n(s, 0) =~= s.subrange(0, s.len() as int) + s.subrange(0, 0));
    } else {
        lemma_rotate_prefix(s, (k - 1) as nat);
        let prev = s.subrange(k as int - 1, s.len() as int) + s.subrange(0, k as int - 1);
        if s.len() <= 1 {
            assert(rotate_n(s, k) =~= s.subrange(k as int, s.len() as int) + s.subrange(
                0,
                k as int,
            ));
        } else {
            assert(prev.len() == s.len());
            assert(rotate1(prev) =~= s.subrange(k as int, s.len() as int) + s.subrange(
                0,
                k as int,
            ));
        }
    }
}

/// The queue built by offering a sequence of actors, in order, to an empty
/// turn order, keeping only first occurrences.
pub open spec fn joins(ids: Seq<EntityId>) -> Seq<EntityId>
    decreases ids.len(),
{
    if ids.len() == 0 {
        Seq::empty()
    } else {
        let prev = joins(ids.drop_last());
        if prev.contains(ids.last()) {
            prev
        } else {
            prev.push(ids.last())
        }
    }
}

/// Joining a run of distinct actors to an empty turn order queues exactly
/// those actors in order, and as many end-of-turn rotations as there are
/// actors then hand the turn back to the first-added actor.
pub proof fn lemma_join_rotate_law(ids: Seq<EntityId>)
    requires
        forall|i: int, j: int| 0 <= i < j < ids.len() ==> ids[i] != ids[j],
    ensures
        joins(ids) == ids,
        rotate_n(joins(ids), ids.len()) == ids,
        ids.len() > 0 ==> rotate_n(joins(ids), ids.len())[0] == ids[0],
    decreases ids.len(),
{
    if ids.len() == 0 {
        assert(joins(ids) =~= ids);
    } else {
        let front = ids.drop_last();
        lemma_join_rotate_law(front);
        assert(!front.contains(ids.last())) by {
            if front.contains(ids.last()) {
                let i = choose|i: int| 0 <= i < front.len() && front[i] == ids.last();
                assert(ids[i] == ids[ids.len() - 1]);
            }
        }
        assert(joins(ids) =~= ids);
    }
    lemma_full_rotation(ids);
}

/// Spatial occupancy index: for each position, the identifiers of the actors
/// standing there. Two independent instances are kept, one for
/// movement-blocking actors and one for combat-capable actors.
pub struct CacheMap {
    pub cache: HashMap<u64, Vec<EntityId>>,
    /// The positions present in `cache`, in insertion order, without
    /// duplicates.
    pub keys: Vec<WorldPos>,
}

impl CacheMap {
    /// The actors indexed at a position.
    pub open spec fn occupants(self, p: WorldPos) -> Seq<EntityId> {
        if self.cache@.contains_key(pos_key(p)) {
            self.cache@[pos_key(p)]@
        } else {
            Seq::empty()
        }
    }

    /// Whether an actor is indexed at a position.
    pub open spec fn occ_has(self, p: WorldPos, e: EntityId) -> bool {
        self.occupants(p).contains(e)
    }

    pub open spec fn wf(self) -> bool {
        &&& forall|i: int|
            0 <= i < self.keys@.len() ==> self.cache@.contains_key(
                pos_key(#[trigger] self.keys@[i]),
            )
        &&& forall|k: u64|
            self.cache@.contains_key(k) ==> exists|i: int|
                0 <= i < self.keys@.len() && pos_key(#[trigger] self.keys@[i]) == k
        &&& forall|i: int, j: int|
            0 <= i < j < self.keys@.len() ==> #[trigger] self.keys@[i] != #[trigger] self.keys@[j]
        &&& forall|k: u64, i: int, j: int|
            self.cache@.contains_key(k) && 0 <= i < j < self.cache@[k]@.len()
                ==> #[trigger] self.cache@[k]@[i] != #[trigger] self.cache@[k]@[j]
    }

    pub fn new() -> (r: Self)
        ensures
            r.wf(),
            forall|q: WorldPos, f: EntityId| !r.occ_has(q, f),
            forall|q: WorldPos| r.occupants(q).len() == 0,
    {
        CacheMap { cache: HashMap::new(), keys: Vec::new() }
    }

    /// Take an actor out of the index at one position.
    #[verifier::rlimit(50)]
    pub fn remove_entity(&mut self, wp: WorldPos, entity: EntityId)
        requires
            old(self).wf(),
        ensures
            final(self).wf(),
            forall|q: WorldPos, f: EntityId|
                #[trigger] final(self).occ_has(q, f) == (old(self).occ_has(q, f) && !(q == wp && f
                    == entity)),
            final(self).keys@ == old(self).keys@,
    {
        let k = pos_key_exec(wp);
        let found = self.cache.remove(&k);
        match found {
            Some(mut v) => {
                let ghost vold = v@;
                match vec_index_of(&v, entity) {
                    Some(i) => {
                        v.remove(i);
                        proof {
                            lemma_seq_remove_all(vold, v@, i as int, entity);
                        }
                    },
                    None => {},
                }
                let ghost vnew = v@;
                self.cache.insert(k, v);
                proof {
                    assert(old(self).cache@.contains_key(k));
                    assert(old(self).cache@[k]@ == vold);
                    assert(self.cache@.contains_key(k) && self.cache@[k]@ == vnew);
                    assert(forall|f: EntityId|
                        vnew.contains(f) == (vold.contains(f) && f != entity));
                    assert forall|q: WorldPos, f: EntityId|
                        #[trigger] self.occ_has(q, f) == (old(self).occ_has(q, f) && !(q == wp && f
                            == entity)) by {
                        lemma_pos_key_injective(q, wp);
                    }
                    assert forall|kk: u64| self.cache@.contains_key(kk) implies exists|i: int|
                        0 <= i < self.keys@.len() && pos_key(#[trigger] self.keys@[i]) == kk by {
                        assert(old(self).cache@.contains_key(kk));
                        let i = choose|i: int|
                            0 <= i < old(self).keys@.len() && pos_key(
                                #[trigger] old(self).keys@[i],
                            ) == kk;
                        assert(pos_key(self.keys@[i]) == kk);
                    }
                    assert forall|kk: u64, a: int, b: int|
                        self.cache@.contains_key(kk) && 0 <= a < b < self.cache@[kk]@.len()
                            implies #[trigger] self.cache@[kk]@[a] != #[trigger] self.cache@[kk]@[b]
                        by {
                        if kk != k {
                            assert(self.cache@[kk] == old(self).cache@[kk]);
                        }
                    }
                    assert(self.wf());
                }
            },
            None => {
                proof {
                    assert forall|q: WorldPos, f: EntityId|
                        #[trigger] self.occ_has(q, f) == (old(self).occ_has(q, f) && !(q == wp && f
                            == entity)) by {
                        lemma_pos_key_injective(q, wp);
                    }
                    assert(self.cache@ =~= old(self).cache@);
                    lemma_cache_wf_transfer(*old(self), *self);
                }
            },
        }
    }

    /// Take an actor out of the index everywhere it appears (used on death).
    pub fn remove_entity_anywhere(&mut self, entity: EntityId)
        requires
            old(self).wf(),
        ensures
            final(self).wf(),
            forall|q: WorldPos, f: EntityId|
                #[trigger] final(self).occ_has(q, f) == (old(self).occ_has(q, f) && f != entity),
    {
        let n = self.keys.len();
        let mut i: usize = 0;
        while i < n
            invariant
                self.wf(),
                n == self.keys@.len(),
                i <= n,
                self.keys@ == old(self).keys@,
                forall|q: WorldPos, f: EntityId|
                    #[trigger] self.occ_has(q, f) == (old(self).occ_has(q, f) && !(f == entity
                        && exists|j: int| 0 <= j < i && self.keys@[j] == q)),
            decreases n - i,
        {
            let wp = self.keys[i];
            self.remove_entity(wp, entity);
            proof {
                assert forall|q: WorldPos, f: EntityId|
                    #[trigger] self.occ_has(q, f) == (old(self).occ_has(q, f) && !(f == entity
                        && exists|j: int| 0 <= j < i + 1 && self.keys@[j] == q)) by {
                    if f == entity && exists|j: int| 0 <= j < i + 1 && self.keys@[j] == q {
                        let j = choose|j: int| 0 <= j < i + 1 && self.keys@[j] == q;
                        assert(!self.occ_has(q, f));
                    }
                }
            }
            i += 1;
        }
        proof {
            assert forall|q: WorldPos, f: EntityId|
                #[trigger] self.occ_has(q, f) == (old(self).occ_has(q, f) && f != entity) by {
                if old(self).occ_has(q, entity) && f == entity {
                    assert(old(self).cache@.contains_key(pos_key(q)));
                    let j = choose|j: int|
                        0 <= j < old(self).keys@.len() && pos_key(#[trigger] old(self).keys@[j])
                            == pos_key(q);
                    lemma_pos_key_injective(old(self).keys@[j], q);
                    assert(0 <= j < i && self.keys@[j] == q);
                }
            }
        }
    }

    /// Move an actor's index entry from one position to another.
    pub fn update_entity(&mut self, old_wp: WorldPos, new_wp: WorldPos, entity: EntityId)
        requires
            old(self).wf(),
        ensures
            final(self).wf(),
            forall|q: WorldPos, f: EntityId|
                final(self).occ_has(q, f) == ((old(self).occ_has(q, f) && !(q == old_wp && f
                    == entity)) || (q == new_wp && f == entity)),
    {
        self.remove_entity(old_wp, entity);
        self.add_entity(new_wp, entity);
    }

    /// Record an actor at a position (idempotent).
    pub fn add_entity(&mut self, wp: WorldPos, entity: EntityId)
        requires
            old(self).wf(),
        ensures
            final(self).wf(),
            forall|q: WorldPos, f: EntityId|
                #[trigger] final(self).occ_has(q, f) == (old(self).occ_has(q, f) || (q == wp && f
                    == entity)),
    {
        let k = pos_key_exec(wp);
        let found = self.cache.remove(&k);
        let mut v: Vec<EntityId>;
        let mut fresh_key = false;
        match found {
            Some(v0) => {
                v = v0;
            },
            None => {
                v = Vec::new();
                fresh_key = true;
            },
        }
        let ghost vold = v@;
        match vec_index_of(&v, entity) {
            Some(_) => {},
            None => {
                v.push(entity);
            },
        }
        let ghost vnew = v@;
        self.cache.insert(k, v);
        if fresh_key {
            self.keys.push(wp);
        }
        proof {
            assert(!fresh_key ==> old(self).cache@.contains_key(k) && old(self).cache@[k]@
                == vold);
            assert(fresh_key ==> !old(self).cache@.contains_key(k) && vold.len() == 0);
            assert(self.cache@.contains_key(k) && self.cache@[k]@ == vnew);
            assert forall|f: EntityId| vnew.contains(f) == (vold.contains(f) || f == entity) by {
                if vnew.len() == vold.len() {
                    assert(vold.contains(entity));
                } else {
                    assert(vnew == vold.push(entity));
                    if vold.contains(f) {
                        let j = choose|j: int| 0 <= j < vold.len() && vold[j] == f;
                        assert(vnew[j] == f);
                    }
                    if vnew.contains(f) {
                        let j = choose|j: int| 0 <= j < vnew.len() && vnew[j] == f;
                        if j < vold.len() {
                            assert(vold[j] == f);
                        }
                    }
                    assert(vnew[vnew.len() - 1] == entity);
                }
            }
            assert forall|kk: u64, a: int, b: int|
                self.cache@.contains_key(kk) && 0 <= a < b < self.cache@[kk]@.len()
                    implies #[trigger] self.cache@[kk]@[a] != #[trigger] self.cache@[kk]@[b] by {
                if kk == k {
                    if vnew.len() == vold.len() + 1 && b == vnew.len() - 1 {
                        assert(vnew[a] == vold[a]);
                        assert(!vold.contains(entity));
                    }
                } else {
                    assert(self.cache@[kk] == old(self).cache@[kk]);
                }
            }
            assert forall|q: WorldPos, f: EntityId|
                #[trigger] self.occ_has(q, f) == (old(self).occ_has(q, f) || (q == wp && f
                    == entity)) by {
                lemma_pos_key_injective(q, wp);
            }
            assert forall|i: int, j: int|
                0 <= i < j < self.keys@.len() implies #[trigger] self.keys@[i]
                != #[trigger] self.keys@[j] by {
                if j == self.keys@.len() - 1 && fresh_key {
                    assert(old(self).cache@.contains_key(pos_key(old(self).keys@[i])));
                }
            }
            assert forall|kk: u64| self.cache@.contains_key(kk) implies exists|i: int|
                0 <= i < self.keys@.len() && pos_key(#[trigger] self.keys@[i]) == kk by {
                if kk == k {
                    if fresh_key {
                        assert(pos_key(self.keys@[self.keys@.len() - 1]) == kk);
                    } else {
                        assert(old(self).cache@.contains_key(kk));
                        let i = choose|i: int|
                            0 <= i < old(self).keys@.len() && pos_key(
                                #[trigger] old(self).keys@[i],
                            ) == kk;
                        assert(pos_key(self.keys@[i]) == kk);
                    }
                } else {
                    assert(old(self).cache@.contains_key(kk));
                    let i = choose|i: int|
                        0 <= i < old(self).keys@.len() && pos_key(#[trigger] old(self).keys@[i])
                            == kk;
                    assert(pos_key(self.keys@[i]) == kk);
                }
            }
            assert(self.wf());
        }
    }

    /// Whether any actor is indexed at the position.
    pub fn has_any(&self, wp: WorldPos) -> (r: bool)
        ensures
            r == (self.occupants(wp).len() > 0),
    {
        let k = pos_key_exec(wp);
        match self.cache.get(&k) {
            Some(v) => v.len() > 0,
            None => false,
        }
    }

    /// Some actor indexed at the position, if any: the longest-standing one.
    pub fn get_any(&self, wp: WorldPos) -> (r: Option<EntityId>)
        ensures
            r == if self.occupants(wp).len() > 0 {
                Some(self.occupants(wp)[0])
            } else {
                None::<EntityId>
            },
            forall|f: EntityId| r == Some(f) ==> self.occ_has(wp, f),
    {
        let k = pos_key_exec(wp);
        match self.cache.get(&k) {
            Some(v) => {
                if v.len() > 0 {
                    Some(v[0])
                } else {
                    None
                }
            },
            None => None,
        }
    }
}

/// Well-formedness of the occupancy index depends only on the table and the
/// key list.
proof fn lemma_cache_wf_transfer(a: CacheMap, b: CacheMap)
    requires
        a.wf(),
        b.cache@ == a.cache@,
        b.keys@ == a.keys@,
    ensures
        b.wf(),
{
    assert forall|k: u64| b.cache@.contains_key(k) implies exists|i: int|
        0 <= i < b.keys@.len() && pos_key(#[trigger] b.keys@[i]) == k by {
        assert(a.cache@.contains_key(k));
        let i = choose|i: int| 0 <= i < a.keys@.len() && pos_key(#[trigger] a.keys@[i]) == k;
        assert(0 <= i < b.keys@.len() && pos_key(b.keys@[i]) == k);
    }
}

/// Removing the only occurrence of a value from a duplicate-free sequence
/// removes exactly that value and keeps the sequence duplicate-free.
proof fn lemma_seq_remove_all(vold: Seq<EntityId>, vnew: Seq<EntityId>, i: int, x: EntityId)
    requires
        0 <= i < vold.len(),
        vold[i] == x,
        vnew == vold.remove(i),
        forall|a: int, b: int| 0 <= a < b < vold.len() ==> #[trigger] vold[a] != #[trigger] vold[b],
    ensures
        forall|f: EntityId| vnew.contains(f) == (vold.contains(f) && f != x),
        forall|a: int, b: int| 0 <= a < b < vnew.len() ==> #[trigger] vnew[a] != #[trigger] vnew[b],
{
    assert forall|f: EntityId| vnew.contains(f) == (vold.contains(f) && f != x) by {
        if vold.contains(f) && f != x {
            let j = choose|j: int| 0 <= j < vold.len() && vold[j] == f;
            if j < i {
                assert(vnew[j] == f);
            } else {
                assert(vnew[j - 1] == f);
            }
            assert(vnew.contains(f));
        }
        if vnew.contains(f) {
            let j = choose|j: int| 0 <= j < vnew.len() && vnew[j] == f;
            if j < i {
                assert(vold[j] == f);
            } else {
                assert(vold[j + 1] == f);
            }
            assert(vold.contains(f));
            assert(f != x);
        }
    }
}

/// First index of a value in a vector, scanning from the front.
fn vec_index_of(v: &Vec<EntityId>, x: EntityId) -> (r: Option<usize>)
    ensures
        match r {
            Some(i) => i < v@.len() && v@[i as int] == x,
            None => !v@.contains(x),
        },
{
    let n = v.len();
    let mut i: usize = 0;
    while i < n
        invariant
            n == v@.len(),
            i <= n,
            forall|j: int| 0 <= j < i ==> v@[j] != x,
        decreases n - i,
    {
        if v[i] == x {
            return Some(i);
        }
        i += 1;
    }
    None
}

/// Occupancy index of the movement-blocking actors.
pub struct BlockedTiles(pub CacheMap);

/// Occupancy index of the combat-capable actors.
pub struct CombatStatsTiles(pub CacheMap);

/// The distance field from the player's tile, keyed by packed position.
pub struct PlayerDistanceMap(pub HashMap<u64, i32>);

/// The per-cycle event queues; all of them are drained before the cycle
/// ends.
pub struct EventQueues {
    pub finished_turn: Vec<EntityFinishedTurn>,
    pub moved: Vec<EntityMovedEvent>,
    pub melee: Vec<EntityMeleeAttacks>,
    pub suffers: Vec<EntitySuffersDamage>,
    pub dies: Vec<EntityDies>,
    pub map_changed: Vec<MapChangedEvent>,
    pub visibility_changed: Vec<VisibilityChangedEvent>,
}

impl EventQueues {
    pub fn new() -> (r: Self)
        ensures
            r.finished_turn@.len() == 0,
            r.moved@.len() == 0,
            r.melee@.len() == 0,
            r.suffers@.len() == 0,
            r.dies@.len() == 0,
            r.map_changed@.len() == 0,
            r.visibility_changed@.len() == 0,
    {
        EventQueues {
            finished_turn: Vec::new(),
            moved: Vec::new(),
            melee: Vec::new(),
            suffers: Vec::new(),
            dies: Vec::new(),
            map_changed: Vec::new(),
            visibility_changed: Vec::new(),
        }
    }

    /// Drop everything: events never outlive the cycle that produced them.
    pub fn clear(&mut self)
        ensures
            final(self).finished_turn@.len() == 0,
            final(self).moved@.len() == 0,
            final(self).melee@.len() == 0,
            final(self).suffers@.len() == 0,
            final(self).dies@.len() == 0,
            final(self).map_changed@.len() == 0,
            final(self).visibility_changed@.len() == 0,
    {
        self.finished_turn.clear();
        self.moved.clear();
        self.melee.clear();
        self.suffers.clear();
        self.dies.clear();
        self.map_changed.clear();
        self.visibility_changed.clear();
    }
}

} // verus!
